pub mod schedule;
pub mod graph;
pub mod link;
pub mod paths;

use vstd::prelude::*;

use crate::pool::link::{links_for, SystemLink, SystemMux, SystemOut};

verus! {

/// `true` exactly when no value occurs twice in `items`.
pub fn has_unique_elements(items: &[usize]) -> (unique: bool)
    ensures
        unique == items@.no_duplicates(),
{
    broadcast use vstd::std_specs::hash::group_hash_axioms;
    let mut uniq: std::collections::HashSet<usize> = std::collections::HashSet::new();
    let mut i: usize = 0;
    while i < items.len()
        invariant
            0 <= i <= items@.len(),
            uniq@ == items@.subrange(0, i as int).to_set(),
            items@.subrange(0, i as int).no_duplicates(),
        decreases items@.len() - i,
    {
        let x = items[i];
        if !uniq.insert(x) {
            proof {
                assert(items@.subrange(0, i as int).contains(x));
                let j = choose|j: int| 0 <= j < i && items@.subrange(0, i as int)[j] == x;
                assert(items@[j] == items@[i as int]);
            }
            return false;
        }
        assert(items@.subrange(0, i + 1) == items@.subrange(0, i as int).push(x));
        proof {
            vstd::seq_lib::lemma_seq_contains_after_push(items@.subrange(0, i as int), x, x);
        }
        i += 1;
    }
    assert(items@.subrange(0, items@.len() as int) == items@);
    true
}

/// Wires the outputs of the producers in `from` to the input of system `to_id`:
/// appends one link per producer, in the multiplexer's order.
///
/// A multiplexer that names a producer twice, or that names the consumer itself,
/// is refused by `requires`: a system fed by itself would have its output buffer
/// read and written in the same step.
pub fn link<Out>(links: &mut Vec<SystemLink>, from: &SystemMux<Out>, to_id: usize)
    requires
        from.ids_spec().no_duplicates(),
        !from.ids_spec().contains(to_id),
    ensures
        final(links)@ == old(links)@ + links_for(from.ids_spec(), from.layouts_spec(), to_id, 0),
        forall|i: int|
            old(links)@.len() <= i < final(links)@.len() ==> #[trigger] final(links)@[i].from_system_idx
                != final(links)@[i].to_system_idx,
        (forall|i: int|
            0 <= i < old(links)@.len() ==> #[trigger] old(links)@[i].from_system_idx
                != old(links)@[i].to_system_idx) ==> forall|i: int|
            0 <= i < final(links)@.len() ==> #[trigger] final(links)@[i].from_system_idx
                != final(links)@[i].to_system_idx,
        final(links)@.len() == old(links)@.len() + from.ids_spec().len(),
        forall|j: int| 0 <= j < old(links)@.len() ==> #[trigger] final(links)@[j] == old(links)@[j],
        forall|j: int|
            old(links)@.len() <= j < final(links)@.len() ==> {
                &&& (#[trigger] final(links)@[j]).from_system_idx == from.ids_spec()[j - old(links)@.len()]
                &&& final(links)@[j].to_system_idx == to_id
                &&& final(links)@[j].to_input_offset == from.layouts_spec()[j - old(links)@.len()].offset
                &&& final(links)@[j].num_bytes == from.layouts_spec()[j - old(links)@.len()].len
            },
{
    let ids = from.ids();
    proof {
        assert forall|i: int| 0 <= i < from.layouts_spec().len() implies #[trigger] from.layouts_spec()[i].offset
            + 0 <= usize::MAX by {}
    }
    from.add_links_to(to_id, 0, links);
    proof {
        assert forall|i: int| old(links)@.len() <= i < final(links)@.len() implies #[trigger] final(links)@[i].from_system_idx
            != final(links)@[i].to_system_idx by {
            let k = i - old(links)@.len();
            assert(final(links)@[i].from_system_idx == ids@[k]);
            assert(from.ids_spec().contains(ids@[k]));
        }
        assert forall|i: int| 0 <= i < old(links)@.len() implies #[trigger] final(links)@[i] == old(links)@[i] by {}
    }
}

/// Wires the producers in `from` to system `to_id` when that is allowed: when no
/// producer is named twice and the consumer is not among them. Returns whether it
/// did; when it did not, `links` is unchanged.
pub fn try_link<Out>(links: &mut Vec<SystemLink>, from: &SystemMux<Out>, to_id: usize) -> (linked: bool)
    ensures
        linked == (from.ids_spec().no_duplicates() && !from.ids_spec().contains(to_id)),
        linked ==> final(links)@ == old(links)@ + links_for(from.ids_spec(), from.layouts_spec(), to_id, 0),
        !linked ==> final(links)@ == old(links)@,
        linked ==> final(links)@.len() == old(links)@.len() + from.ids_spec().len(),
        linked ==> forall|j: int| 0 <= j < old(links)@.len() ==> #[trigger] final(links)@[j] == old(links)@[j],
        linked ==> forall|j: int|
            old(links)@.len() <= j < final(links)@.len() ==> {
                &&& (#[trigger] final(links)@[j]).from_system_idx == from.ids_spec()[j - old(links)@.len()]
                &&& final(links)@[j].to_system_idx == to_id
                &&& final(links)@[j].to_input_offset == from.layouts_spec()[j - old(links)@.len()].offset
                &&& final(links)@[j].num_bytes == from.layouts_spec()[j - old(links)@.len()].len
            },
{
    let ids = from.ids();
    if !has_unique_elements(ids) {
        return false;
    }
    let mut i: usize = 0;
    while i < ids.len()
        invariant
            0 <= i <= ids@.len(),
            ids@ == from.ids_spec(),
            forall|j: int| 0 <= j < i ==> ids@[j] != to_id,
        decreases ids@.len() - i,
    {
        if ids[i] == to_id {
            proof {
                assert(ids@.contains(to_id));
            }
            return false;
        }
        i += 1;
    }
    link(links, from, to_id);
    true
}

/// The links among `links` that feed system `v`, in order.
pub open spec fn links_into(links: Seq<SystemLink>, v: int) -> Seq<SystemLink>
    decreases links.len(),
{
    if links.len() == 0 {
        Seq::empty()
    } else if links.last().to_system_idx == v {
        links_into(links.drop_last(), v).push(links.last())
    } else {
        links_into(links.drop_last(), v)
    }
}

/// The links grouped by the system they feed: entry `v` holds, in order, the links
/// into system `v`.
pub fn incoming_links(n: usize, links: &Vec<SystemLink>) -> (groups: Vec<Vec<SystemLink>>)
    requires
        forall|i: int| 0 <= i < links@.len() ==> #[trigger] links@[i].to_system_idx < n,
    ensures
        groups@.len() == n,
        forall|v: int| 0 <= v < n ==> (#[trigger] groups@[v])@ == links_into(links@, v),
        forall|v: int|
            0 <= v < n ==> (#[trigger] groups@[v])@ == links@.filter(|l: SystemLink| l.to_system_idx == v),
{
    let mut groups: Vec<Vec<SystemLink>> = Vec::with_capacity(n);
    let mut u: usize = 0;
    while u < n
        invariant
            u <= n,
            groups@.len() == u,
            forall|j: int| 0 <= j < u ==> (#[trigger] groups@[j])@ == Seq::<SystemLink>::empty(),
        decreases n - u,
    {
        groups.push(Vec::new());
        u += 1;
    }
    let mut i: usize = 0;
    while i < links.len()
        invariant
            0 <= i <= links@.len(),
            groups@.len() == n,
            forall|k: int| 0 <= k < links@.len() ==> #[trigger] links@[k].to_system_idx < n,
            forall|v: int|
                0 <= v < n ==> (#[trigger] groups@[v])@ == links_into(links@.subrange(0, i as int), v),
        decreases links@.len() - i,
    {
        let l = links[i];
        let to = l.to_system_idx;
        groups[to].push(l);
        proof {
            let pre = links@.subrange(0, i as int);
            let post = links@.subrange(0, i + 1);
            assert(post.drop_last() == pre);
            assert(post.last() == l);
            assert forall|v: int| 0 <= v < n implies (#[trigger] groups@[v])@ == links_into(post, v) by {
                if v != to {
                    assert(links_into(post, v) == links_into(pre, v));
                }
            }
        }
        i += 1;
    }
    proof {
        assert(links@.subrange(0, links@.len() as int) == links@);
        assert forall|v: int| 0 <= v < n implies (#[trigger] groups@[v])@ == links@.filter(
            |l: SystemLink| l.to_system_idx == v,
        ) by {
            lemma_links_into_filter(links@, v);
        }
    }
    groups
}

/// The links into `v` are the links whose target is `v`, kept in their order.
pub proof fn lemma_links_into_filter(links: Seq<SystemLink>, v: int)
    ensures
        links_into(links, v) == links.filter(|l: SystemLink| l.to_system_idx == v),
    decreases links.len(),
{
    let pred = |l: SystemLink| l.to_system_idx == v;
    reveal(Seq::filter);
    if links.len() > 0 {
        lemma_links_into_filter(links.drop_last(), v);
        assert(links.filter(pred) == (if pred(links.last()) {
            links.drop_last().filter(pred).push(links.last())
        } else {
            links.drop_last().filter(pred)
        }));
    } else {
        assert(links.filter(pred) =~= Seq::<SystemLink>::empty());
    }
}

/// The largest number of links into any one system, or `None` when there are no
/// systems.
pub fn max_inputs(groups: &Vec<Vec<SystemLink>>) -> (m: Option<usize>)
    ensures
        m is None <==> groups@.len() == 0,
        m matches Some(k) ==> (forall|v: int| 0 <= v < groups@.len() ==> (#[trigger] groups@[v])@.len()
            <= k) && exists|v: int| 0 <= v < groups@.len() && (#[trigger] groups@[v])@.len() == k,
{
    if groups.len() == 0 {
        return None;
    }
    let mut best: usize = groups[0].len();
    let mut v: usize = 1;
    while v < groups.len()
        invariant
            1 <= v <= groups@.len(),
            forall|w: int| 0 <= w < v ==> (#[trigger] groups@[w])@.len() <= best,
            exists|w: int| 0 <= w < v && (#[trigger] groups@[w])@.len() == best,
        decreases groups@.len() - v,
    {
        if groups[v].len() > best {
            best = groups[v].len();
        }
        v += 1;
    }
    Some(best)
}

} // verus!
