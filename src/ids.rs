use vstd::prelude::*;

verus! {

/// Position of the last entry of `ids` whose text is `id`, if any: when an
/// identity repeats, the later node shadows the earlier ones.
pub open spec fn last_index_of(ids: Seq<String>, id: Seq<char>) -> Option<int>
    decreases ids.len(),
{
    if ids.len() == 0 {
        None
    } else if ids.last()@ == id {
        Some(ids.len() - 1)
    } else {
        last_index_of(ids.drop_last(), id)
    }
}

/// What `last_index_of` yields is a position holding `id`, with no later match;
/// and it is absent exactly when no entry holds `id`.
pub proof fn lemma_last_index_of(ids: Seq<String>, id: Seq<char>)
    ensures
        match last_index_of(ids, id) {
            Some(i) => 0 <= i < ids.len() && ids[i]@ == id && forall|j: int|
                i < j < ids.len() ==> ids[j]@ != id,
            None => forall|j: int| 0 <= j < ids.len() ==> ids[j]@ != id,
        },
    decreases ids.len(),
{
    if ids.len() > 0 {
        let rest = ids.drop_last();
        lemma_last_index_of(rest, id);
        assert(forall|j: int| 0 <= j < rest.len() ==> rest[j] == ids[j]);
        if ids.last()@ == id {
            assert(last_index_of(ids, id) == Some(ids.len() - 1));
        } else {
            assert(last_index_of(ids, id) == last_index_of(rest, id));
        }
    }
}

/// Looks up the node index of an identity, scanning from the back so that a
/// repeated identity resolves to its last occurrence.
pub fn index_of(ids: &Vec<String>, id: &String) -> (r: Option<usize>)
    ensures
        r matches Some(i) ==> last_index_of(ids@, id@) == Some(i as int),
        r is None ==> last_index_of(ids@, id@) is None,
{
    let mut k: usize = ids.len();
    assert(ids@.subrange(0, k as int) =~= ids@);
    while k > 0
        invariant
            k <= ids@.len(),
            last_index_of(ids@, id@) == last_index_of(ids@.subrange(0, k as int), id@),
        decreases k,
    {
        let cur = &ids[k - 1];
        assert(ids@.subrange(0, k as int).drop_last() =~= ids@.subrange(0, k - 1));
        assert(ids@.subrange(0, k as int).last() == ids@[k - 1]);
        if cur.eq(id) {
            return Some(k - 1);
        }
        k = k - 1;
    }
    None
}

/// The two ends of a link between nodes, named by identity.
pub struct EdgeEnds {
    pub source: String,
    pub target: String,
}

/// An edge takes part in a step exactly when both of its ends name known
/// nodes; it then acts between those two indices.
pub open spec fn resolve_spec(ids: Seq<String>, e: EdgeEnds) -> Option<(usize, usize)> {
    match (last_index_of(ids, e.source@), last_index_of(ids, e.target@)) {
        (Some(s), Some(t)) => Some((s as usize, t as usize)),
        _ => None,
    }
}

/// An edge that names an unknown node resolves to nothing, so it adds no
/// force to any node.
pub proof fn lemma_dangling_edge_inert(ids: Seq<String>, e: EdgeEnds)
    requires
        (forall|j: int| 0 <= j < ids.len() ==> (#[trigger] ids[j])@ != e.source@) || (forall|j: int|
            0 <= j < ids.len() ==> (#[trigger] ids[j])@ != e.target@),
    ensures
        resolve_spec(ids, e) is None,
{
    lemma_last_index_of(ids, e.source@);
    lemma_last_index_of(ids, e.target@);
}

/// Resolves one edge against the node identities.
pub fn resolve(ids: &Vec<String>, e: &EdgeEnds) -> (r: Option<(usize, usize)>)
    ensures
        r == resolve_spec(ids@, *e),
{
    match (index_of(ids, &e.source), index_of(ids, &e.target)) {
        (Some(s), Some(t)) => Some((s, t)),
        _ => None,
    }
}

/// Resolves every edge in order; an edge with an unknown end yields `None`
/// and no error.
pub fn resolve_all(ids: &Vec<String>, edges: &Vec<EdgeEnds>) -> (r: Vec<Option<(usize, usize)>>)
    ensures
        r@.len() == edges@.len(),
        forall|k: int| 0 <= k < edges@.len() ==> r@[k] == resolve_spec(ids@, #[trigger] edges@[k]),
{
    let mut out: Vec<Option<(usize, usize)>> = Vec::new();
    let mut k: usize = 0;
    while k < edges.len()
        invariant
            k <= edges@.len(),
            out@.len() == k,
            forall|j: int| 0 <= j < k ==> out@[j] == resolve_spec(ids@, #[trigger] edges@[j]),
        decreases edges@.len() - k,
    {
        out.push(resolve(ids, &edges[k]));
        k = k + 1;
    }
    out
}

} // verus!
