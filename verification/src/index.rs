//! The index over a metadata snapshot: the manifest catalog, the resolution
//! graph, the publicly visible packages and targets, per-target dependency
//! resolution, and the extra-metadata table.

use vstd::prelude::*;

use crate::cargo::DepKind;
use crate::cargo::Manifest;
use crate::cargo::ManifestDep;
use crate::cargo::ManifestTarget;
use crate::cargo::Metadata;
use crate::cargo::Node;
use crate::cargo::NodeDep;
use crate::cargo::NodeDepKind;
use crate::cargo::TargetKind;
use crate::cargo::TargetReq;
use crate::platform::PlatformExpr;
use crate::platform::PlatformPredicate;
use crate::platform::cfg_inner;
use crate::platform::guard_spec;
use crate::platform::is_cfg_form;
use crate::platform::combine_guards;
use crate::platform::parse;
use crate::platform::view_opt_expr;
use crate::strutil::Cmp;
use crate::strutil::lemma_seq_cmp_eq;
use crate::strutil::lemma_seq_cmp_flip;
use crate::strutil::lemma_seq_cmp_trans;
use crate::strutil::matches_normalized;
use crate::strutil::normalize_seq;
use crate::strutil::seq_cmp;
use crate::strutil::strcmp;
use crate::strutil::view_opt_str;

verus! {

/// A build-rule name.
pub struct Name(pub String);

/// Extra per-package metadata to be kept in sync with the package list:
/// the oncall shortname used as maintainer.
#[derive(Debug)]
pub struct ExtraMetadata {
    pub oncall: String,
}

/// The index of the package with this id in the catalog: the last one, where
/// a duplicated id makes the later entry win.
pub open spec fn pkg_lookup(packages: Seq<Manifest>, id: u64) -> Option<int>
    decreases packages.len(),
{
    if packages.len() == 0 {
        Option::None
    } else if packages[packages.len() - 1].id == id {
        Option::Some(packages.len() - 1)
    } else {
        pkg_lookup(packages.drop_last(), id)
    }
}

/// What a successful or failed catalog lookup means.
pub proof fn lemma_pkg_lookup(packages: Seq<Manifest>, id: u64)
    ensures
        match pkg_lookup(packages, id) {
            Option::Some(i) => 0 <= i < packages.len() && packages[i].id == id && forall|j: int|
                i < j < packages.len() ==> packages[j].id != id,
            Option::None => forall|j: int| 0 <= j < packages.len() ==> packages[j].id != id,
        },
    decreases packages.len(),
{
    if packages.len() > 0 {
        lemma_pkg_lookup(packages.drop_last(), id);
        assert(forall|j: int|
            0 <= j < packages.len() - 1 ==> packages.drop_last()[j] == packages[j]);
    }
}

/// Whether some entry of the list carries this package id.
pub open spec fn has_pkg(packages: Seq<Manifest>, id: u64) -> bool {
    pkg_lookup(packages, id) is Some
}

/// How a lookup relates to the tail of the list.
pub proof fn lemma_pkg_lookup_skip(s: Seq<Manifest>, id: u64)
    requires
        s.len() > 0,
    ensures
        pkg_lookup(s.skip(1), id) is Some ==> pkg_lookup(s, id) == Option::Some(
            pkg_lookup(s.skip(1), id)->0 + 1,
        ),
        pkg_lookup(s.skip(1), id) is None && s[0].id == id ==> pkg_lookup(s, id) == Option::Some(
            0int,
        ),
        pkg_lookup(s.skip(1), id) is None && s[0].id != id ==> pkg_lookup(s, id) is None,
    decreases s.len(),
{
    if s.len() == 1 {
        assert(s.skip(1) =~= Seq::<Manifest>::empty());
        assert(s.drop_last() =~= Seq::<Manifest>::empty());
    } else {
        let st = s.skip(1);
        assert(st[st.len() - 1] == s[s.len() - 1]);
        if s[s.len() - 1].id == id {
        } else {
            assert(s.drop_last().skip(1) =~= st.drop_last());
            assert(s.drop_last()[0] == s[0]);
            lemma_pkg_lookup_skip(s.drop_last(), id);
        }
    }
}

/// The catalog of a snapshot: the package list with duplicate ids collapsed,
/// keeping for each id the last manifest inserted under it, in the order of
/// those last occurrences.
pub open spec fn dedup_last(s: Seq<Manifest>) -> Seq<Manifest>
    decreases s.len(),
{
    if s.len() == 0 {
        Seq::empty()
    } else if has_pkg(s.skip(1), s[0].id) {
        dedup_last(s.skip(1))
    } else {
        seq![s[0]] + dedup_last(s.skip(1))
    }
}

/// The deduplicated catalog holds exactly the ids of the input, each mapped
/// to the last manifest inserted under it.
pub proof fn lemma_dedup_last(s: Seq<Manifest>, id: u64)
    ensures
        has_pkg(dedup_last(s), id) <==> has_pkg(s, id),
        has_pkg(s, id) ==> dedup_last(s)[pkg_lookup(dedup_last(s), id)->0] == s[pkg_lookup(s, id)
            ->0],
    decreases s.len(),
{
    if s.len() > 0 {
        let st = s.skip(1);
        lemma_dedup_last(st, id);
        lemma_pkg_lookup_skip(s, id);
        lemma_pkg_lookup(s, id);
        lemma_pkg_lookup(st, id);
        lemma_pkg_lookup(dedup_last(st), id);
        lemma_pkg_lookup(dedup_last(s), id);
        assert(forall|k: int| 0 <= k < st.len() ==> s[k + 1] == st[k]);
        if has_pkg(st, s[0].id) {
            assert(dedup_last(s) == dedup_last(st));
            if has_pkg(s, id) {
                assert(has_pkg(st, id)) by {
                    if pkg_lookup(st, id) is None {
                        assert(s[0].id == id);
                    }
                }
                assert(pkg_lookup(s, id)->0 == pkg_lookup(st, id)->0 + 1);
                assert(s[pkg_lookup(s, id)->0] == st[pkg_lookup(st, id)->0]);
            }
            if has_pkg(st, id) {
                assert(has_pkg(s, id));
            }
        } else {
            let d = dedup_last(s);
            assert(d == seq![s[0]] + dedup_last(st));
            assert(d[0] == s[0]);
            assert(d.skip(1) =~= dedup_last(st));
            lemma_pkg_lookup_skip(d, id);
            assert(forall|k: int| 0 <= k < dedup_last(st).len() ==> d[k + 1] == dedup_last(st)[k]);
            if s[0].id == id {
                assert(!has_pkg(st, id));
                assert(!has_pkg(dedup_last(st), id));
                assert(pkg_lookup(s, id) == Option::Some(0int));
                assert(pkg_lookup(d, id) == Option::Some(0int));
                assert(d[0] == s[0]);
            } else {
                if has_pkg(s, id) {
                    assert(has_pkg(st, id)) by {
                        if pkg_lookup(st, id) is None {
                            assert(s[0].id == id);
                        }
                    }
                    assert(has_pkg(dedup_last(st), id));
                    assert(pkg_lookup(d, id)->0 == pkg_lookup(dedup_last(st), id)->0 + 1);
                    assert(d[pkg_lookup(d, id)->0] == dedup_last(st)[pkg_lookup(
                        dedup_last(st),
                        id,
                    )->0]);
                    assert(pkg_lookup(s, id)->0 == pkg_lookup(st, id)->0 + 1);
                    assert(s[pkg_lookup(s, id)->0] == st[pkg_lookup(st, id)->0]);
                }
                if has_pkg(dedup_last(st), id) {
                    assert(has_pkg(d, id));
                }
                if !has_pkg(st, id) {
                    assert(!has_pkg(dedup_last(st), id));
                    assert(!has_pkg(d, id));
                    assert(!has_pkg(s, id));
                }
            }
        }
    }
}

/// Distinct entries of the deduplicated catalog carry distinct ids.
pub proof fn lemma_dedup_distinct_ids(s: Seq<Manifest>)
    ensures
        forall|i: int, j: int|
            0 <= i < j < dedup_last(s).len() ==> dedup_last(s)[i].id != dedup_last(s)[j].id,
    decreases s.len(),
{
    if s.len() > 0 {
        let st = s.skip(1);
        lemma_dedup_distinct_ids(st);
        if !has_pkg(st, s[0].id) {
            let d = dedup_last(s);
            assert(d == seq![s[0]] + dedup_last(st));
            assert forall|j: int| 1 <= j < d.len() implies d[j].id != s[0].id by {
                assert(d[j] == dedup_last(st)[j - 1]);
                lemma_pkg_lookup(dedup_last(st), d[j].id);
                assert(has_pkg(dedup_last(st), d[j].id));
                lemma_dedup_last(st, d[j].id);
            }
        }
    }
}

/// Collapse duplicate package ids in the snapshot's package list: for each
/// id, the last manifest inserted under it survives.
fn dedup_packages(packages: Vec<Manifest>) -> (r: Vec<Manifest>)
    ensures
        r@ == dedup_last(packages@),
{
    let mut v = packages;
    let mut out: Vec<Manifest> = Vec::new();
    proof {
        assert(out@ + dedup_last(v@) =~= dedup_last(packages@));
    }
    while v.len() > 0
        invariant
            out@ + dedup_last(v@) == dedup_last(packages@),
        decreases v@.len(),
    {
        let ghost v_before = v@;
        let x = v.remove(0);
        proof {
            assert(v@ =~= v_before.skip(1));
        }
        if find_pkg_idx(&v, x.id).is_none() {
            let ghost out_before = out@;
            out.push(x);
            proof {
                assert(dedup_last(v_before) == seq![v_before[0]] + dedup_last(v_before.skip(1)));
                assert(out_before + (seq![v_before[0]] + dedup_last(v@)) =~= out@ + dedup_last(
                    v@,
                ));
            }
        } else {
            proof {
                assert(dedup_last(v_before) == dedup_last(v_before.skip(1)));
            }
        }
    }
    proof {
        assert(v@.len() == 0);
        assert(dedup_last(v@) =~= Seq::<Manifest>::empty());
        assert(out@ + dedup_last(v@) =~= out@);
    }
    out
}

/// The index of the node with this id in the graph: the last one.
pub open spec fn node_lookup(nodes: Seq<Node>, id: u64) -> Option<int>
    decreases nodes.len(),
{
    if nodes.len() == 0 {
        Option::None
    } else if nodes[nodes.len() - 1].id == id {
        Option::Some(nodes.len() - 1)
    } else {
        node_lookup(nodes.drop_last(), id)
    }
}

/// What a successful or failed graph lookup means.
pub proof fn lemma_node_lookup(nodes: Seq<Node>, id: u64)
    ensures
        match node_lookup(nodes, id) {
            Option::Some(i) => 0 <= i < nodes.len() && nodes[i].id == id,
            Option::None => forall|j: int| 0 <= j < nodes.len() ==> nodes[j].id != id,
        },
    decreases nodes.len(),
{
    if nodes.len() > 0 {
        lemma_node_lookup(nodes.drop_last(), id);
        assert(forall|j: int| 0 <= j < nodes.len() - 1 ==> nodes.drop_last()[j] == nodes[j]);
    }
}

/// Find the index of the package with this id, preferring the last occurrence.
fn find_pkg_idx(packages: &Vec<Manifest>, id: u64) -> (r: Option<usize>)
    ensures
        match r {
            Option::Some(i) => pkg_lookup(packages@, id) == Option::Some(i as int),
            Option::None => pkg_lookup(packages@, id) is None,
        },
{
    proof {
        assert(packages@.take(packages@.len() as int) =~= packages@);
    }
    let mut i: usize = packages.len();
    while i > 0
        invariant
            i <= packages@.len(),
            pkg_lookup(packages@, id) == pkg_lookup(packages@.take(i as int), id),
        decreases i,
    {
        proof {
            assert(packages@.take(i as int)[i - 1] == packages@[i - 1]);
            assert(packages@.take(i as int).drop_last() =~= packages@.take(i as int - 1));
        }
        if packages[i - 1].id == id {
            return Option::Some(i - 1);
        }
        i = i - 1;
    }
    Option::None
}

/// Find the index of the node with this id, preferring the last occurrence.
fn find_node_idx(nodes: &Vec<Node>, id: u64) -> (r: Option<usize>)
    ensures
        match r {
            Option::Some(i) => node_lookup(nodes@, id) == Option::Some(i as int),
            Option::None => node_lookup(nodes@, id) is None,
        },
{
    proof {
        assert(nodes@.take(nodes@.len() as int) =~= nodes@);
    }
    let mut i: usize = nodes.len();
    while i > 0
        invariant
            i <= nodes@.len(),
            node_lookup(nodes@, id) == node_lookup(nodes@.take(i as int), id),
        decreases i,
    {
        proof {
            assert(nodes@.take(i as int)[i - 1] == nodes@[i - 1]);
            assert(nodes@.take(i as int).drop_last() =~= nodes@.take(i as int - 1));
        }
        if nodes[i - 1].id == id {
            return Option::Some(i - 1);
        }
        i = i - 1;
    }
    Option::None
}

/// The rename the root declares whose underscore-normalized form equals
/// `name`: the last matching declaration wins.
pub open spec fn rename_lookup(deps: Seq<ManifestDep>, name: Seq<char>) -> Option<Seq<char>>
    decreases deps.len(),
{
    if deps.len() == 0 {
        Option::None
    } else if deps[deps.len() - 1].rename is Some && normalize_seq(
        (deps[deps.len() - 1].rename->0)@,
    ) == name {
        Option::Some((deps[deps.len() - 1].rename->0)@)
    } else {
        rename_lookup(deps.drop_last(), name)
    }
}

/// Find the root-declared rename whose normalized form equals `name`.
fn find_rename(deps: &Vec<ManifestDep>, name: &str) -> (r: Option<String>)
    ensures
        view_opt_str(r) == rename_lookup(deps@, name@),
{
    proof {
        assert(deps@.take(deps@.len() as int) =~= deps@);
    }
    let mut i: usize = deps.len();
    while i > 0
        invariant
            i <= deps@.len(),
            rename_lookup(deps@, name@) == rename_lookup(deps@.take(i as int), name@),
        decreases i,
    {
        proof {
            assert(deps@.take(i as int)[i - 1] == deps@[i - 1]);
            assert(deps@.take(i as int).drop_last() =~= deps@.take(i as int - 1));
        }
        match &deps[i - 1].rename {
            Option::Some(rn) => {
                if matches_normalized(rn.as_str(), name) {
                    return Option::Some(rn.clone());
                }
            },
            Option::None => {},
        }
        i = i - 1;
    }
    Option::None
}

/// One flattened resolved edge: the effective name, the kind record, and the
/// dependency's package id.
#[verifier::ext_equal]
pub ghost struct EdgeView {
    pub name: Seq<char>,
    pub kind: NodeDepKind,
    pub pkg: u64,
}

/// The effective name of an edge under one kind record: the edge-level name
/// if present, else the record's extern name.
pub open spec fn spec_edge_name(dep: NodeDep, k: NodeDepKind) -> Seq<char> {
    match dep.name {
        Option::Some(n) => n@,
        Option::None => match k.extern_name {
            Option::Some(e) => e@,
            Option::None => Seq::empty(),
        },
    }
}

/// The flattened entries of one edge: one per kind record.
pub open spec fn edge_views(dep: NodeDep) -> Seq<EdgeView> {
    dep.dep_kinds@.map_values(
        |k: NodeDepKind| EdgeView { name: spec_edge_name(dep, k), kind: k, pkg: dep.pkg },
    )
}

/// The flattened entries of a node's edges, in edge order then record order.
pub open spec fn flat_entries(deps: Seq<NodeDep>) -> Seq<EdgeView>
    decreases deps.len(),
{
    if deps.len() == 0 {
        Seq::empty()
    } else {
        edge_views(deps[0]) + flat_entries(deps.skip(1))
    }
}

/// Flattening one more edge appends its entries.
pub proof fn lemma_flat_entries_push(deps: Seq<NodeDep>, d: NodeDep)
    ensures
        flat_entries(deps.push(d)) == flat_entries(deps) + edge_views(d),
    decreases deps.len(),
{
    if deps.len() == 0 {
        assert(deps.push(d)[0] == d);
        assert(deps.push(d).skip(1) =~= Seq::<NodeDep>::empty());
        assert(edge_views(d) + flat_entries(Seq::empty()) =~= edge_views(d));
        assert(flat_entries(deps) + edge_views(d) =~= edge_views(d));
    } else {
        assert(deps.push(d)[0] == deps[0]);
        assert(deps.push(d).skip(1) =~= deps.skip(1).push(d));
        lemma_flat_entries_push(deps.skip(1), d);
        assert(edge_views(deps[0]) + (flat_entries(deps.skip(1)) + edge_views(d)) =~= (edge_views(
            deps[0],
        ) + flat_entries(deps.skip(1))) + edge_views(d));
    }
}

/// Whether a node's edges can be resolved against the catalog: every edge's
/// package id occurs there, and every edge has a resolvable name.
pub open spec fn wf_node(node: Node, packages: Seq<Manifest>) -> bool {
    forall|i: int|
        0 <= i < node.deps@.len() ==> {
            &&& pkg_lookup(packages, (#[trigger] node.deps@[i]).pkg) is Some
            &&& (node.deps@[i].name is Some || forall|j: int|
                0 <= j < node.deps@[i].dep_kinds@.len()
                    ==> (#[trigger] node.deps@[i].dep_kinds@[j]).extern_name is Some)
        }
}

/// The root package id of a snapshot.
pub open spec fn root_id_of(meta: Metadata) -> u64 {
    meta.resolve.root->0
}

/// Whether a snapshot can be indexed: the declared root exists in the catalog
/// and the graph, and the root node's edges can be resolved.
pub open spec fn wf_metadata(meta: Metadata) -> bool {
    &&& meta.resolve.root is Some
    &&& pkg_lookup(meta.packages@, root_id_of(meta)) is Some
    &&& node_lookup(meta.resolve.nodes@, root_id_of(meta)) is Some
    &&& wf_node(root_node_of(meta), meta.packages@)
}

/// The root package's manifest.
pub open spec fn root_pkg_of(meta: Metadata) -> Manifest {
    meta.packages@[pkg_lookup(meta.packages@, root_id_of(meta))->0]
}

/// The root package's graph node.
pub open spec fn root_node_of(meta: Metadata) -> Node {
    meta.resolve.nodes@[node_lookup(meta.resolve.nodes@, root_id_of(meta))->0]
}

/// One recorded public target: a package id, a target requirement, and an
/// optional rename.
pub struct PubTarget {
    pub id: u64,
    pub req: TargetReq,
    pub rename: Option<String>,
}

/// The recorded entries read as a map: a later entry for the same key
/// overwrites an earlier one.
pub open spec fn assoc_view(s: Seq<PubTarget>) -> Map<(u64, TargetReq), Option<Seq<char>>>
    decreases s.len(),
{
    if s.len() == 0 {
        Map::empty()
    } else {
        assoc_view(s.drop_last()).insert(
            (s[s.len() - 1].id, s[s.len() - 1].req),
            view_opt_str(s[s.len() - 1].rename),
        )
    }
}

/// A key is recorded exactly when some entry carries it.
pub proof fn lemma_assoc_view_dom(s: Seq<PubTarget>, id: u64, req: TargetReq)
    ensures
        assoc_view(s).dom().contains((id, req)) <==> exists|k: int|
            0 <= k < s.len() && s[k].id == id && s[k].req == req,
    decreases s.len(),
{
    if s.len() > 0 {
        lemma_assoc_view_dom(s.drop_last(), id, req);
        if s[s.len() - 1].id == id && s[s.len() - 1].req == req {
            assert(s[s.len() - 1].id == id && s[s.len() - 1].req == req);
        } else if exists|k: int| 0 <= k < s.len() - 1 && s.drop_last()[k].id == id
            && s.drop_last()[k].req == req {
            let k = choose|k: int|
                0 <= k < s.len() - 1 && s.drop_last()[k].id == id && s.drop_last()[k].req == req;
            assert(s[k].id == id && s[k].req == req);
        } else if exists|k: int| 0 <= k < s.len() && s[k].id == id && s[k].req == req {
            let k = choose|k: int| 0 <= k < s.len() && s[k].id == id && s[k].req == req;
            if k < s.len() - 1 {
                assert(s.drop_last()[k].id == id && s.drop_last()[k].req == req);
            }
        }
    }
}

/// The last recorded entry for a key, if any.
pub open spec fn assoc_get(s: Seq<PubTarget>, id: u64, req: TargetReq) -> Option<
    Option<Seq<char>>,
>
    decreases s.len(),
{
    if s.len() == 0 {
        Option::None
    } else if s[s.len() - 1].id == id && s[s.len() - 1].req == req {
        Option::Some(view_opt_str(s[s.len() - 1].rename))
    } else {
        assoc_get(s.drop_last(), id, req)
    }
}

/// The last recorded entry for a key is the map's value at it.
pub proof fn lemma_assoc_get(s: Seq<PubTarget>, id: u64, req: TargetReq)
    ensures
        assoc_view(s).dom().contains((id, req)) ==> assoc_get(s, id, req) == Option::Some(
            assoc_view(s)[(id, req)],
        ),
        !assoc_view(s).dom().contains((id, req)) ==> assoc_get(s, id, req) is None,
    decreases s.len(),
{
    if s.len() > 0 {
        lemma_assoc_get(s.drop_last(), id, req);
    }
}

/// The map after recording one entry per flattened edge, keyed by the
/// dependency's package id and the record's target requirement, valued by the
/// root's rename for the edge name.
pub open spec fn pt_insert_edges(
    m: Map<(u64, TargetReq), Option<Seq<char>>>,
    root_deps: Seq<ManifestDep>,
    entries: Seq<EdgeView>,
) -> Map<(u64, TargetReq), Option<Seq<char>>>
    decreases entries.len(),
{
    if entries.len() == 0 {
        m
    } else {
        pt_insert_edges(
            m.insert(
                (entries[0].pkg, entries[0].kind.spec_target_req()),
                rename_lookup(root_deps, entries[0].name),
            ),
            root_deps,
            entries.skip(1),
        )
    }
}

/// Recording one more edge inserts its key last.
pub proof fn lemma_pt_insert_push(
    m: Map<(u64, TargetReq), Option<Seq<char>>>,
    root_deps: Seq<ManifestDep>,
    entries: Seq<EdgeView>,
    e: EdgeView,
)
    ensures
        pt_insert_edges(m, root_deps, entries.push(e)) == pt_insert_edges(
            m,
            root_deps,
            entries,
        ).insert((e.pkg, e.kind.spec_target_req()), rename_lookup(root_deps, e.name)),
    decreases entries.len(),
{
    if entries.len() == 0 {
        assert(entries.push(e)[0] == e);
        assert(entries.push(e).skip(1) =~= Seq::<EdgeView>::empty());
        let m2 = m.insert((e.pkg, e.kind.spec_target_req()), rename_lookup(root_deps, e.name));
        assert(pt_insert_edges(m, root_deps, entries.push(e)) == pt_insert_edges(
            m2,
            root_deps,
            entries.push(e).skip(1),
        ));
        assert(pt_insert_edges(m2, root_deps, Seq::<EdgeView>::empty()) == m2);
        assert(pt_insert_edges(m, root_deps, entries) == m);
    } else {
        assert(entries.push(e)[0] == entries[0]);
        assert(entries.push(e).skip(1) =~= entries.skip(1).push(e));
        let m2 = m.insert(
            (entries[0].pkg, entries[0].kind.spec_target_req()),
            rename_lookup(root_deps, entries[0].name),
        );
        assert(pt_insert_edges(m, root_deps, entries.push(e)) == pt_insert_edges(
            m2,
            root_deps,
            entries.skip(1).push(e),
        ));
        lemma_pt_insert_push(m2, root_deps, entries.skip(1), e);
        assert(pt_insert_edges(m, root_deps, entries) == pt_insert_edges(
            m2,
            root_deps,
            entries.skip(1),
        ));
    }
}

/// The public-targets map of a snapshot: the root's resolved edges, then —
/// when the root is real — the root's own library and any-binary targets.
pub open spec fn pt_map_of(meta: Metadata, root_is_real: bool) -> Map<
    (u64, TargetReq),
    Option<Seq<char>>,
> {
    let base = pt_insert_edges(
        Map::empty(),
        root_pkg_of(meta).dependencies@,
        flat_entries(root_node_of(meta).deps@),
    );
    if root_is_real {
        base.insert((root_id_of(meta), TargetReq::Lib), Option::None).insert(
            (root_id_of(meta), TargetReq::EveryBin),
            Option::None,
        )
    } else {
        base
    }
}

/// One resolved entry corresponds to one flattened edge: looked-up package
/// index, effective name, exact kind record.
pub open spec fn entry_matches(
    packages: Seq<Manifest>,
    e: EdgeView,
    t: (String, NodeDepKind, usize),
) -> bool {
    &&& t.0@ == e.name
    &&& t.1 == e.kind
    &&& pkg_lookup(packages, e.pkg) == Option::Some(t.2 as int)
}

/// Flatten a node's resolved edges into (effective name, kind record,
/// package index) entries.
fn resolved_entries(packages: &Vec<Manifest>, node: &Node) -> (r: Vec<(String, NodeDepKind, usize)>)
    requires
        wf_node(*node, packages@),
    ensures
        r@.len() == flat_entries(node.deps@).len(),
        forall|k: int|
            0 <= k < r@.len() ==> entry_matches(packages@, flat_entries(node.deps@)[k], r@[k]),
{
    let mut out: Vec<(String, NodeDepKind, usize)> = Vec::new();
    proof {
        assert(node.deps@.take(0) =~= Seq::<NodeDep>::empty());
    }
    let mut i: usize = 0;
    while i < node.deps.len()
        invariant
            i <= node.deps@.len(),
            wf_node(*node, packages@),
            out@.len() == flat_entries(node.deps@.take(i as int)).len(),
            forall|k: int|
                0 <= k < out@.len() ==> entry_matches(
                    packages@,
                    flat_entries(node.deps@.take(i as int))[k],
                    out@[k],
                ),
        decreases node.deps@.len() - i,
    {
        let dep = &node.deps[i];
        let pkg_idx_opt = find_pkg_idx(packages, dep.pkg);
        let pkg_idx = pkg_idx_opt.unwrap();
        let ghost base = flat_entries(node.deps@.take(i as int));
        let mut j: usize = 0;
        while j < dep.dep_kinds.len()
            invariant
                j <= dep.dep_kinds@.len(),
                wf_node(*node, packages@),
                i < node.deps@.len(),
                *dep == node.deps@[i as int],
                pkg_lookup(packages@, dep.pkg) == Option::Some(pkg_idx as int),
                base == flat_entries(node.deps@.take(i as int)),
                out@.len() == base.len() + j,
                forall|k: int|
                    0 <= k < base.len() ==> entry_matches(packages@, base[k], out@[k]),
                forall|k: int|
                    base.len() <= k < out@.len() ==> entry_matches(
                        packages@,
                        edge_views(node.deps@[i as int])[k - base.len()],
                        out@[k],
                    ),
            decreases dep.dep_kinds@.len() - j,
    {
            let name: String = match &dep.name {
                Option::Some(n) => n.clone(),
                Option::None => {
                    match &dep.dep_kinds[j].extern_name {
                        Option::Some(e) => e.clone(),
                        Option::None => {
                            proof {
                                assert(false);
                            }
                            String::new()
                        },
                    }
                },
            };
            let kind_copy = dep.dep_kinds[j].duplicate();
            out.push((name, kind_copy, pkg_idx));
            j = j + 1;
        }
        proof {
            assert(node.deps@.take(i as int).push(node.deps@[i as int]) =~= node.deps@.take(
                i as int + 1,
            ));
            lemma_flat_entries_push(node.deps@.take(i as int), node.deps@[i as int]);
        }
        i = i + 1;
    }
    proof {
        assert(node.deps@.take(node.deps@.len() as int) =~= node.deps@);
    }
    out
}

/// Does the id list hold this id?
fn contains_id(v: &Vec<u64>, id: u64) -> (r: bool)
    ensures
        r == exists|m: int| 0 <= m < v@.len() && v@[m] == id,
{
    let mut m: usize = 0;
    while m < v.len()
        invariant
            m <= v@.len(),
            forall|k: int| 0 <= k < m ==> v@[k] != id,
        decreases v@.len() - m,
    {
        if v[m] == id {
            return true;
        }
        m = m + 1;
    }
    false
}

/// Record one public target per flattened edge of the root's node: the
/// dependency's package id, the record's target requirement, and the root's
/// declared rename for the edge's effective name, if any.
fn build_public_targets(
    packages: &Vec<Manifest>,
    root_idx: usize,
    entries: &Vec<(String, NodeDepKind, usize)>,
    Ghost(flat): Ghost<Seq<EdgeView>>,
) -> (r: Vec<PubTarget>)
    requires
        root_idx < packages@.len(),
        entries@.len() == flat.len(),
        forall|k: int| 0 <= k < entries@.len() ==> entry_matches(packages@, flat[k], entries@[k]),
    ensures
        assoc_view(r@) == pt_insert_edges(
            Map::empty(),
            packages@[root_idx as int].dependencies@,
            flat,
        ),
{
    let ghost root_deps = packages@[root_idx as int].dependencies@;
    let mut out: Vec<PubTarget> = Vec::new();
    proof {
        assert(flat.take(0) =~= Seq::<EdgeView>::empty());
    }
    let mut m: usize = 0;
    while m < entries.len()
        invariant
            m <= entries@.len(),
            entries@.len() == flat.len(),
            forall|k: int|
                0 <= k < entries@.len() ==> entry_matches(packages@, flat[k], entries@[k]),
            root_idx < packages@.len(),
            root_deps == packages@[root_idx as int].dependencies@,
            assoc_view(out@) == pt_insert_edges(Map::empty(), root_deps, flat.take(m as int)),
        decreases entries@.len() - m,
    {
        proof {
            assert(entry_matches(packages@, flat[m as int], entries@[m as int]));
            lemma_pkg_lookup(packages@, flat[m as int].pkg);
        }
        let name_ref = &entries[m].0;
        let req = entries[m].1.target_req();
        let pkg_idx = entries[m].2;
        let rename = find_rename(&packages[root_idx].dependencies, name_ref.as_str());
        let id = packages[pkg_idx].id;
        let ghost pt_before = out@;
        out.push(PubTarget { id, req, rename });
        proof {
            assert(out@.drop_last() =~= pt_before);
            assert(out@[out@.len() - 1] == (PubTarget { id, req, rename }));
            lemma_pt_insert_push(Map::empty(), root_deps, flat.take(m as int), flat[m as int]);
            assert(flat.take(m as int).push(flat[m as int]) =~= flat.take(m as int + 1));
            assert(id == flat[m as int].pkg);
            assert(req == flat[m as int].kind.spec_target_req());
            assert(view_opt_str(rename) == rename_lookup(root_deps, flat[m as int].name));
        }
        m = m + 1;
    }
    proof {
        assert(flat.take(flat.len() as int) =~= flat);
    }
    out
}

/// The first `n` recorded targets all have their package id in `pubs`.
pub open spec fn ids_cover_upto(pt: Seq<PubTarget>, pubs: Seq<u64>, n: int) -> bool {
    forall|q: int|
        0 <= q < n ==> exists|m: int| 0 <= m < pubs.len() && pubs[m] == (#[trigger] pt[q]).id
}

/// Every id in `pubs` is the package id of some recorded target.
pub open spec fn ids_from(pt: Seq<PubTarget>, pubs: Seq<u64>) -> bool {
    forall|m: int|
        0 <= m < pubs.len() ==> exists|q: int| 0 <= q < pt.len() && pt[q].id == (#[trigger] pubs[m])
}

/// Collect the distinct package ids that occur among the recorded targets.
fn collect_public_packages(pt: &Vec<PubTarget>) -> (r: Vec<u64>)
    ensures
        ids_cover_upto(pt@, r@, pt@.len() as int),
        ids_from(pt@, r@),
{
    let mut pubs: Vec<u64> = Vec::new();
    let mut k: usize = 0;
    while k < pt.len()
        invariant
            k <= pt@.len(),
            ids_cover_upto(pt@, pubs@, k as int),
            ids_from(pt@, pubs@),
        decreases pt@.len() - k,
    {
        let id = pt[k].id;
        let ghost pubs_before = pubs@;
        if !contains_id(&pubs, id) {
            pubs.push(id);
        }
        proof {
            assert(forall|m2: int| 0 <= m2 < pubs_before.len() ==> pubs@[m2] == pubs_before[m2]);
            assert(exists|m2: int|
                0 <= m2 < pubs@.len() && pubs@[m2] == pt@[k as int].id) by {
                if exists|m2: int| 0 <= m2 < pubs_before.len() && pubs_before[m2] == id {
                    let m2 = choose|m2: int|
                        0 <= m2 < pubs_before.len() && pubs_before[m2] == id;
                    assert(pubs@[m2] == id);
                } else {
                    assert(pubs@[pubs@.len() - 1] == id);
                }
            }
            assert(ids_cover_upto(pt@, pubs@, k as int + 1)) by {
                assert forall|q: int| 0 <= q < k + 1 implies exists|m: int|
                    0 <= m < pubs@.len() && pubs@[m] == (#[trigger] pt@[q]).id by {
                    if q < k {
                        let m = choose|m: int|
                            0 <= m < pubs_before.len() && pubs_before[m] == pt@[q].id;
                        assert(pubs@[m] == pt@[q].id);
                    }
                }
            }
            assert(ids_from(pt@, pubs@)) by {
                assert forall|m: int| 0 <= m < pubs@.len() implies exists|q: int|
                    0 <= q < pt@.len() && pt@[q].id == (#[trigger] pubs@[m]) by {
                    if m < pubs_before.len() {
                        let q = choose|q: int|
                            0 <= q < pt@.len() && pt@[q].id == pubs_before[m];
                        assert(pt@[q].id == pubs@[m]);
                    } else {
                        assert(pubs@[m] == id);
                        assert(pt@[k as int].id == id);
                    }
                }
            }
        }
        k = k + 1;
    }
    pubs
}

/// Index for interesting things in a metadata snapshot. Built once; every
/// later operation is a pure query.
pub struct Index {
    packages: Vec<Manifest>,
    nodes: Vec<Node>,
    root_idx: usize,
    public_packages: Vec<u64>,
    public_targets: Vec<PubTarget>,
}

impl Index {
    /// The manifest catalog.
    pub closed spec fn spec_packages(self) -> Seq<Manifest> {
        self.packages@
    }

    /// The resolution-graph nodes.
    pub closed spec fn spec_nodes(self) -> Seq<Node> {
        self.nodes@
    }

    /// The catalog index of the root package.
    pub closed spec fn spec_root_idx(self) -> int {
        self.root_idx as int
    }

    /// The root package's id.
    pub open spec fn spec_root_id(self) -> u64 {
        self.spec_packages()[self.spec_root_idx()].id
    }

    /// The recorded public-target map.
    pub closed spec fn pt_view(self) -> Map<(u64, TargetReq), Option<Seq<char>>> {
        assoc_view(self.public_targets@)
    }

    /// The graph node of the package with this id.
    pub open spec fn node_of(self, id: u64) -> Node {
        self.spec_nodes()[node_lookup(self.spec_nodes(), id)->0]
    }

    /// Internal consistency: the root index is in range, and the recorded
    /// public-package set carries exactly the first components of the
    /// recorded public-target keys.
    pub closed spec fn wf(self) -> bool {
        &&& 0 <= self.spec_root_idx() < self.spec_packages().len()
        &&& ids_cover_upto(
            self.public_targets@,
            self.public_packages@,
            self.public_targets@.len() as int,
        )
        &&& ids_from(self.public_targets@, self.public_packages@)
    }

    /// Construct an index for a metadata snapshot: find the root, record one
    /// public target per resolved kind record of each of the root's edges
    /// (with the root's rename where one is declared), then — when the root
    /// is real — the root's own library and any-binary targets, and collect
    /// the public-package set.
    pub fn new(root_is_real: bool, metadata: Metadata) -> (r: Index)
        requires
            wf_metadata(metadata),
        ensures
            r.wf(),
            r.spec_packages() == dedup_last(metadata.packages@),
            r.spec_nodes() == metadata.resolve.nodes@,
            pkg_lookup(dedup_last(metadata.packages@), root_id_of(metadata)) == Option::Some(
                r.spec_root_idx(),
            ),
            r.spec_root_id() == root_id_of(metadata),
            r.spec_packages()[r.spec_root_idx()] == root_pkg_of(metadata),
            r.pt_view() == pt_map_of(metadata, root_is_real),
    {
        let ghost meta = metadata;
        let Metadata { packages, resolve } = metadata;
        let root = resolve.root;
        let nodes = resolve.nodes;
        let root_id = root.unwrap();
        let packages = dedup_packages(packages);
        proof {
            lemma_dedup_last(meta.packages@, root_id);
        }
        let root_idx_opt = find_pkg_idx(&packages, root_id);
        let root_idx = root_idx_opt.unwrap();
        let node_idx_opt = find_node_idx(&nodes, root_id);
        let node_idx = node_idx_opt.unwrap();
        proof {
            lemma_pkg_lookup(packages@, root_id);
            lemma_node_lookup(nodes@, root_id);
        }
        proof {
            assert(packages@[root_idx as int] == root_pkg_of(meta));
            assert(nodes@[node_idx as int] == root_node_of(meta));
            assert forall|i: int| 0 <= i < root_node_of(meta).deps@.len() implies pkg_lookup(
                packages@,
                (#[trigger] root_node_of(meta).deps@[i]).pkg,
            ) is Some by {
                lemma_dedup_last(meta.packages@, root_node_of(meta).deps@[i].pkg);
            }
            assert(wf_node(root_node_of(meta), packages@));
        }
        let entries = resolved_entries(&packages, &nodes[node_idx]);
        let ghost flat = flat_entries(root_node_of(meta).deps@);
        let mut public_targets = build_public_targets(&packages, root_idx, &entries, Ghost(flat));
        proof {
            assert(assoc_view(public_targets@) == pt_insert_edges(
                Map::empty(),
                root_pkg_of(meta).dependencies@,
                flat_entries(root_node_of(meta).deps@),
            ));
        }
        if root_is_real {
            let root_pkg_id = packages[root_idx].id;
            let ghost pt_a = public_targets@;
            public_targets.push(
                PubTarget { id: root_pkg_id, req: TargetReq::Lib, rename: Option::None },
            );
            proof {
                assert(public_targets@.drop_last() =~= pt_a);
            }
            let ghost pt_b = public_targets@;
            public_targets.push(
                PubTarget { id: root_pkg_id, req: TargetReq::EveryBin, rename: Option::None },
            );
            proof {
                assert(public_targets@.drop_last() =~= pt_b);
                assert(root_pkg_id == root_id_of(meta));
                assert(view_opt_str(Option::<String>::None) is None);
                assert(assoc_view(pt_b) == assoc_view(pt_a).insert(
                    (root_id_of(meta), TargetReq::Lib),
                    Option::None,
                ));
                assert(assoc_view(public_targets@) == assoc_view(pt_b).insert(
                    (root_id_of(meta), TargetReq::EveryBin),
                    Option::None,
                ));
                assert(assoc_view(public_targets@) == pt_map_of(meta, true));
            }
        } else {
            proof {
                assert(assoc_view(public_targets@) == pt_map_of(meta, false));
            }
        }
        let public_packages = collect_public_packages(&public_targets);
        proof {
            assert(assoc_view(public_targets@) == pt_map_of(meta, root_is_real));
        }
        Index { packages, nodes, root_idx, public_packages, public_targets }
    }

    /// Test if a package is the root package.
    pub fn is_root_package(&self, pkg: &Manifest) -> (r: bool)
        requires
            self.wf(),
        ensures
            r == (pkg.id == self.spec_root_id()),
    {
        self.packages[self.root_idx].id == pkg.id
    }

    /// Test if any target of the package is public.
    pub fn is_public_package(&self, pkg: &Manifest) -> (r: bool)
        requires
            self.wf(),
        ensures
            r == exists|req: TargetReq| self.pt_view().dom().contains((pkg.id, req)),
    {
        let r = contains_id(&self.public_packages, pkg.id);
        proof {
            if r {
                let m = choose|m: int|
                    0 <= m < self.public_packages@.len() && self.public_packages@[m] == pkg.id;
                let k = choose|k: int|
                    0 <= k < self.public_targets@.len() && self.public_targets@[k].id
                        == self.public_packages@[m];
                lemma_assoc_view_dom(self.public_targets@, pkg.id, self.public_targets@[k].req);
                assert(self.public_targets@[k].id == pkg.id && self.public_targets@[k].req
                    == self.public_targets@[k].req);
                assert(self.pt_view().dom().contains((pkg.id, self.public_targets@[k].req)));
            } else {
                assert forall|req: TargetReq| !self.pt_view().dom().contains((pkg.id, req)) by {
                    lemma_assoc_view_dom(self.public_targets@, pkg.id, req);
                    if exists|k: int|
                        0 <= k < self.public_targets@.len() && self.public_targets@[k].id == pkg.id
                            && self.public_targets@[k].req == req {
                        let k = choose|k: int|
                            0 <= k < self.public_targets@.len() && self.public_targets@[k].id
                                == pkg.id && self.public_targets@[k].req == req;
                        let m = choose|m: int|
                            0 <= m < self.public_packages@.len() && self.public_packages@[m] == (
                            self.public_targets@[k]).id;
                        assert(false);
                    }
                }
            }
        }
        r
    }

    /// Test if a specific target requirement of the package is public.
    pub fn is_public_target(&self, pkg: &Manifest, target_req: TargetReq) -> (r: bool)
        ensures
            r == self.pt_view().dom().contains((pkg.id, target_req)),
    {
        let mut k: usize = 0;
        while k < self.public_targets.len()
            invariant
                k <= self.public_targets@.len(),
                forall|q: int|
                    0 <= q < k ==> !((#[trigger] self.public_targets@[q]).id == pkg.id
                        && self.public_targets@[q].req == target_req),
            decreases self.public_targets@.len() - k,
        {
            let e = &self.public_targets[k];
            if e.id == pkg.id && e.req == target_req {
                proof {
                    lemma_assoc_view_dom(self.public_targets@, pkg.id, target_req);
                    assert(self.public_targets@[k as int].id == pkg.id
                        && self.public_targets@[k as int].req == target_req);
                }
                return true;
            }
            k = k + 1;
        }
        proof {
            lemma_assoc_view_dom(self.public_targets@, pkg.id, target_req);
        }
        false
    }

    /// Every manifest of the catalog: one per distinct package id (on a
    /// duplicated id only the last-inserted manifest survives construction).
    pub fn all_packages(&self) -> (r: &Vec<Manifest>)
        ensures
            r@ == self.spec_packages(),
    {
        &self.packages
    }

    /// The root package's manifest.
    pub fn root_pkg(&self) -> (r: &Manifest)
        requires
            self.wf(),
        ensures
            *r == self.spec_packages()[self.spec_root_idx()],
    {
        &self.packages[self.root_idx]
    }

    /// The recorded rename entry for a key, if the key is recorded.
    fn pt_get(&self, id: u64, req: TargetReq) -> (r: Option<Option<String>>)
        ensures
            match r {
                Option::Some(v) => self.pt_view().dom().contains((id, req)) && view_opt_str(v)
                    == self.pt_view()[(id, req)],
                Option::None => !self.pt_view().dom().contains((id, req)),
            },
    {
        proof {
            assert(self.public_targets@.take(self.public_targets@.len() as int)
                =~= self.public_targets@);
        }
        let mut i: usize = self.public_targets.len();
        while i > 0
            invariant
                i <= self.public_targets@.len(),
                assoc_get(self.public_targets@, id, req) == assoc_get(
                    self.public_targets@.take(i as int),
                    id,
                    req,
                ),
            decreases i,
        {
            proof {
                assert(self.public_targets@.take(i as int)[i - 1] == self.public_targets@[i - 1]);
                assert(self.public_targets@.take(i as int).drop_last() =~= self.public_targets@.take(
                    i as int - 1,
                ));
            }
            let e = &self.public_targets[i - 1];
            if e.id == id && e.req == req {
                proof {
                    lemma_assoc_get(self.public_targets@, id, req);
                }
                return Option::Some(crate::cargo::clone_opt_string(&e.rename));
            }
            i = i - 1;
        }
        proof {
            lemma_assoc_get(self.public_targets@, id, req);
            assert(self.public_targets@.take(0) =~= Seq::<PubTarget>::empty());
        }
        Option::None
    }

    /// Whether the package has a graph node whose edges can all be resolved
    /// against the catalog: what the dependency queries rely on.
    pub fn check_package_node(&self, pkg: &Manifest) -> (r: bool)
        ensures
            r == (node_lookup(self.spec_nodes(), pkg.id) is Some && wf_node(
                self.node_of(pkg.id),
                self.spec_packages(),
            )),
    {
        match find_node_idx(&self.nodes, pkg.id) {
            Option::None => false,
            Option::Some(i) => {
                proof {
                    lemma_node_lookup(self.nodes@, pkg.id);
                }
                check_node(&self.nodes[i], &self.packages)
            },
        }
    }

    /// The resolved feature set of the package, as recorded on its node.
    pub fn resolved_features(&self, pkg: &Manifest) -> (r: &Vec<String>)
        requires
            node_lookup(self.spec_nodes(), pkg.id) is Some,
        ensures
            r@ == self.node_of(pkg.id).features@,
    {
        let idx = find_node_idx(&self.nodes, pkg.id).unwrap();
        proof {
            lemma_node_lookup(self.nodes@, pkg.id);
        }
        &self.nodes[idx].features
    }

    /// The resolved dependencies of the package: one entry per kind record of
    /// each resolved edge, as (effective name, kind record, package index).
    pub fn resolved_deps(&self, pkg: &Manifest) -> (r: Vec<(String, NodeDepKind, usize)>)
        requires
            node_lookup(self.spec_nodes(), pkg.id) is Some,
            wf_node(self.node_of(pkg.id), self.spec_packages()),
        ensures
            r@.len() == flat_entries(self.node_of(pkg.id).deps@).len(),
            forall|k: int|
                0 <= k < r@.len() ==> entry_matches(
                    self.spec_packages(),
                    flat_entries(self.node_of(pkg.id).deps@)[k],
                    r@[k],
                ),
    {
        let idx = find_node_idx(&self.nodes, pkg.id).unwrap();
        proof {
            lemma_node_lookup(self.nodes@, pkg.id);
        }
        resolved_entries(&self.packages, &self.nodes[idx])
    }

    /// The declared dependencies applicable to the target's kind, as indices
    /// into the package's declaration list, in declaration order.
    pub fn deps_for_target(&self, pkg: &Manifest, tgt: &ManifestTarget) -> (r: Vec<usize>)
        requires
            exists|i: int| 0 <= i < pkg.targets@.len() && pkg.targets@[i] == *tgt,
        ensures
            forall|j: int|
                #![trigger r@[j]]
                0 <= j < r@.len() ==> r@[j] < pkg.dependencies@.len() && spec_applicable(
                    pkg.dependencies@[r@[j] as int].kind,
                    tgt.kind,
                ),
            forall|a: int, b: int| 0 <= a < b < r@.len() ==> r@[a] < r@[b],
            forall|i: int|
                0 <= i < pkg.dependencies@.len() && spec_applicable(
                    (#[trigger] pkg.dependencies@[i]).kind,
                    tgt.kind,
                ) ==> exists|j: int| 0 <= j < r@.len() && r@[j] as int == i,
    {
        let mut out: Vec<usize> = Vec::new();
        let mut t: usize = 0;
        while t < pkg.dependencies.len()
            invariant
                t <= pkg.dependencies@.len(),
                forall|j: int|
                    #![trigger out@[j]]
                    0 <= j < out@.len() ==> out@[j] < t && spec_applicable(
                        pkg.dependencies@[out@[j] as int].kind,
                        tgt.kind,
                    ),
                forall|a: int, b: int| 0 <= a < b < out@.len() ==> out@[a] < out@[b],
                forall|i: int|
                    0 <= i < t && spec_applicable(
                        (#[trigger] pkg.dependencies@[i]).kind,
                        tgt.kind,
                    ) ==> exists|j: int| 0 <= j < out@.len() && out@[j] as int == i,
            decreases pkg.dependencies@.len() - t,
        {
            let ghost out_before = out@;
            if applicable(pkg.dependencies[t].kind, tgt.kind) {
                out.push(t);
            }
            proof {
                if spec_applicable(pkg.dependencies@[t as int].kind, tgt.kind) {
                    assert(out@[out@.len() - 1] as int == t as int);
                }
                assert forall|i: int|
                    0 <= i < t + 1 && spec_applicable(
                        (#[trigger] pkg.dependencies@[i]).kind,
                        tgt.kind,
                    ) implies exists|j: int| 0 <= j < out@.len() && out@[j] as int == i by {
                    if i < t {
                        let j = choose|j: int|
                            0 <= j < out_before.len() && out_before[j] as int == i;
                        assert(out@[j] as int == i);
                    }
                }
            }
            t = t + 1;
        }
        out
    }

    /// Return resolved dependencies for a target: every resolved edge whose
    /// package's name has declarations applicable to the target's kind, each
    /// with the declarations' platform conditions merged into one combined
    /// guard (unconditional absorbs; parse failures are dropped from the
    /// group; several conditions disjoin).
    pub fn resolved_deps_for_target(&self, pkg: &Manifest, tgt: &ManifestTarget) -> (r: Vec<
        ResolvedDep,
    >)
        requires
            node_lookup(self.spec_nodes(), pkg.id) is Some,
            wf_node(self.node_of(pkg.id), self.spec_packages()),
            exists|i: int| 0 <= i < pkg.targets@.len() && pkg.targets@[i] == *tgt,
        ensures
            r@.len() == kept_edges(
                self.spec_packages(),
                pkg.dependencies@,
                tgt.kind,
                flat_entries(self.node_of(pkg.id).deps@),
            ).len(),
            forall|k: int|
                #![trigger r@[k]]
                0 <= k < r@.len() ==> rd_matches(
                    self.spec_packages(),
                    pkg.dependencies@,
                    tgt.kind,
                    kept_edges(
                        self.spec_packages(),
                        pkg.dependencies@,
                        tgt.kind,
                        flat_entries(self.node_of(pkg.id).deps@),
                    )[k],
                    r@[k],
                ),
    {
        let entries = self.resolved_deps(pkg);
        let ghost packs = self.spec_packages();
        let ghost decl = pkg.dependencies@;
        let ghost tk = tgt.kind;
        let ghost flat = flat_entries(self.node_of(pkg.id).deps@);
        let mut out: Vec<ResolvedDep> = Vec::new();
        proof {
            assert(flat.take(0) =~= Seq::<EdgeView>::empty());
            reveal_with_fuel(Seq::filter, 2);
            assert(kept_edges(packs, decl, tk, flat.take(0)).len() == 0);
        }
        let mut m: usize = 0;
        while m < entries.len()
            invariant
                m <= entries@.len(),
                entries@.len() == flat.len(),
                forall|k: int|
                    0 <= k < entries@.len() ==> entry_matches(packs, flat[k], #[trigger] entries@[k]),
                packs == self.spec_packages(),
                decl == pkg.dependencies@,
                tk == tgt.kind,
                flat == flat_entries(self.node_of(pkg.id).deps@),
                out@.len() == kept_edges(packs, decl, tk, flat.take(m as int)).len(),
                forall|k: int|
                    #![trigger out@[k]]
                    0 <= k < out@.len() ==> rd_matches(
                        packs,
                        decl,
                        tk,
                        kept_edges(packs, decl, tk, flat.take(m as int))[k],
                        out@[k],
                    ),
            decreases entries@.len() - m,
        {
            proof {
                assert(entry_matches(packs, flat[m as int], entries@[m as int]));
                lemma_pkg_lookup(packs, flat[m as int].pkg);
            }
            let pkg_idx = entries[m].2;
            let dep_name = &self.packages[pkg_idx].name;
            proof {
                assert(dep_name@ == edge_pkg_name(packs, flat[m as int]));
            }
            let mut found = false;
            let mut unconditional = false;
            let mut preds: Vec<String> = Vec::new();
            proof {
                assert(decl.take(0) =~= Seq::<ManifestDep>::empty());
            }
            let mut t: usize = 0;
            while t < pkg.dependencies.len()
                invariant
                    t <= decl.len(),
                    decl == pkg.dependencies@,
                    tk == tgt.kind,
                    found == exists|i: int| 0 <= i < t && in_group(#[trigger] decl[i], tk, dep_name@),
                    unconditional == exists|i: int|
                        0 <= i < t && in_group(#[trigger] decl[i], tk, dep_name@)
                            && decl[i].target is None,
                    preds@.map_values(|s: String| s@) == group_pred_texts(
                        decl.take(t as int),
                        tk,
                        dep_name@,
                    ),
                decreases decl.len() - t,
            {
                let d = &pkg.dependencies[t];
                let ghost preds_before = preds@;
                let ghost found_before = found;
                let ghost uncond_before = unconditional;
                if applicable(d.kind, tgt.kind) && d.name == *dep_name {
                    found = true;
                    match &d.target {
                        Option::None => {
                            unconditional = true;
                        },
                        Option::Some(plat) => {
                            match parse(plat.as_str()) {
                                Result::Ok(p) => {
                                    match p {
                                        PlatformPredicate::Cfg(txt) => {
                                            preds.push(txt);
                                        },
                                        PlatformPredicate::Any(_) => {
                                            proof {
                                                assert(false);
                                            }
                                        },
                                    }
                                },
                                Result::Err(_) => {},
                            }
                        },
                    }
                }
                proof {
                    assert(decl.take(t as int).push(decl[t as int]) =~= decl.take(t as int + 1));
                    lemma_group_pred_texts_push(decl.take(t as int), decl[t as int], tk, dep_name@);
                    if preds@.len() == preds_before.len() {
                        assert(dep_pred_text(decl[t as int], tk, dep_name@) =~= Seq::<
                            Seq<char>,
                        >::empty());
                        assert(preds@.map_values(|s: String| s@) =~= group_pred_texts(
                            decl.take(t as int + 1),
                            tk,
                            dep_name@,
                        ));
                    } else {
                        let txt = preds@[preds@.len() - 1];
                        assert(dep_pred_text(decl[t as int], tk, dep_name@) =~= seq![txt@]);
                        assert(preds@.map_values(|s: String| s@) =~= preds_before.map_values(
                            |s: String| s@,
                        ).push(txt@));
                        assert(preds@.map_values(|s: String| s@) =~= group_pred_texts(
                            decl.take(t as int + 1),
                            tk,
                            dep_name@,
                        ));
                    }
                    if found && !found_before {
                        assert(in_group(decl[t as int], tk, dep_name@));
                    }
                    if unconditional && !uncond_before {
                        assert(in_group(decl[t as int], tk, dep_name@) && decl[t as int].target is None);
                    }
                }
                t = t + 1;
            }
            proof {
                assert(decl.take(decl.len() as int) =~= decl);
                assert(found == group_nonempty(decl, tk, dep_name@));
                assert(unconditional == group_unconditional(decl, tk, dep_name@));
                lemma_kept_edges_push(packs, decl, tk, flat.take(m as int), flat[m as int]);
                assert(flat.take(m as int).push(flat[m as int]) =~= flat.take(m as int + 1));
            }
            if found {
                let platform = combine_guards(unconditional, preds);
                let rename = entries[m].0.clone();
                let dep_kind = entries[m].1.duplicate();
                proof {
                    assert(view_opt_expr(platform) == group_guard(decl, tk, dep_name@));
                    assert(keep_edge(packs, decl, tk, flat[m as int]));
                }
                out.push(ResolvedDep { package: pkg_idx, platform, rename, dep_kind });
                proof {
                    assert(rd_matches(
                        packs,
                        decl,
                        tk,
                        flat[m as int],
                        out@[out@.len() - 1],
                    ));
                }
            } else {
                proof {
                    assert(!keep_edge(packs, decl, tk, flat[m as int]));
                }
            }
            m = m + 1;
        }
        proof {
            assert(flat.take(flat.len() as int) =~= flat);
        }
        out
    }

    /// The declared dependencies whose platform-condition string fails to
    /// parse, as indices in declaration order. These are the declarations
    /// the per-target merge drops from their groups; callers log or report
    /// them.
    pub fn unparseable_conditions(&self, pkg: &Manifest) -> (r: Vec<usize>)
        ensures
            forall|j: int|
                #![trigger r@[j]]
                0 <= j < r@.len() ==> r@[j] < pkg.dependencies@.len()
                    && pkg.dependencies@[r@[j] as int].target is Some && !is_cfg_form(
                    (pkg.dependencies@[r@[j] as int].target->0)@,
                ),
            forall|a: int, b: int| 0 <= a < b < r@.len() ==> r@[a] < r@[b],
            forall|i: int|
                0 <= i < pkg.dependencies@.len() && (#[trigger] pkg.dependencies@[i]).target
                    is Some && !is_cfg_form((pkg.dependencies@[i].target->0)@) ==> exists|j: int|
                    0 <= j < r@.len() && r@[j] as int == i,
    {
        let mut out: Vec<usize> = Vec::new();
        let mut t: usize = 0;
        while t < pkg.dependencies.len()
            invariant
                t <= pkg.dependencies@.len(),
                forall|j: int|
                    #![trigger out@[j]]
                    0 <= j < out@.len() ==> out@[j] < t && pkg.dependencies@[out@[j] as int].target
                        is Some && !is_cfg_form((pkg.dependencies@[out@[j] as int].target->0)@),
                forall|a: int, b: int| 0 <= a < b < out@.len() ==> out@[a] < out@[b],
                forall|i: int|
                    0 <= i < t && (#[trigger] pkg.dependencies@[i]).target is Some && !is_cfg_form(
                        (pkg.dependencies@[i].target->0)@,
                    ) ==> exists|j: int| 0 <= j < out@.len() && out@[j] as int == i,
            decreases pkg.dependencies@.len() - t,
        {
            let ghost out_before = out@;
            let failed = match &pkg.dependencies[t].target {
                Option::Some(plat) => parse(plat.as_str()).is_err(),
                Option::None => false,
            };
            if failed {
                out.push(t);
            }
            proof {
                if failed {
                    assert(out@[out@.len() - 1] as int == t as int);
                }
                assert forall|i: int|
                    0 <= i < t + 1 && (#[trigger] pkg.dependencies@[i]).target is Some
                        && !is_cfg_form((pkg.dependencies@[i].target->0)@) implies exists|j: int|
                    0 <= j < out@.len() && out@[j] as int == i by {
                    if i < t {
                        let j = choose|j: int|
                            0 <= j < out_before.len() && out_before[j] as int == i;
                        assert(out@[j] as int == i);
                    }
                }
            }
            t = t + 1;
        }
        out
    }

    /// The extra-metadata table of the root manifest, validated against the
    /// root's direct dependency names: on success, one entry per table row;
    /// otherwise one aggregate error naming exactly the unmatched keys.
    pub fn get_extra_meta(&self) -> (r: Result<Vec<(String, ExtraMetadata)>, PackageMetaError>)
        requires
            self.wf(),
        ensures
            ({
                let table = self.spec_packages()[self.spec_root_idx()].third_party@;
                let deps = self.spec_packages()[self.spec_root_idx()].dependencies@;
                match r {
                    Result::Ok(list) => (forall|k: int|
                        0 <= k < table.len() ==> dep_name_match(deps, (#[trigger] table[k]).0@))
                        && list@.len() == table.len() && forall|k: int|
                        0 <= k < table.len() ==> (#[trigger] list@[k]).0@ == table[k].0@
                            && list@[k].1.oncall@ == table[k].1@,
                    Result::Err(e) => (exists|k: int|
                        0 <= k < table.len() && !dep_name_match(deps, (#[trigger] table[k]).0@))
                        && sorted_names(e.extra@) && distinct_names(e.extra@) && forall|
                        t: Seq<char>,
                    |
                        #![trigger names_contain(e.extra@, t)]
                        names_contain(e.extra@, t) <==> exists|k: int|
                            0 <= k < table.len() && (#[trigger] table[k]).0@ == t
                                && !dep_name_match(deps, t),
                }
            }),
    {
        let root = &self.packages[self.root_idx];
        let ghost table = root.third_party@;
        let ghost deps = root.dependencies@;
        let mut ret: Vec<(String, ExtraMetadata)> = Vec::new();
        let mut errs = PackageMetaError::new();
        let mut k: usize = 0;
        while k < root.third_party.len()
            invariant
                k <= table.len(),
                table == root.third_party@,
                deps == root.dependencies@,
                (errs.extra@.len() == 0) ==> (ret@.len() == k && forall|q: int|
                    0 <= q < k ==> (#[trigger] ret@[q]).0@ == table[q].0@ && ret@[q].1.oncall@
                        == table[q].1@),
                (errs.extra@.len() == 0) <==> (forall|q: int|
                    0 <= q < k ==> dep_name_match(deps, (#[trigger] table[q]).0@)),
                sorted_names(errs.extra@),
                distinct_names(errs.extra@),
                forall|t: Seq<char>|
                    #![trigger names_contain(errs.extra@, t)]
                    names_contain(errs.extra@, t) <==> exists|q: int|
                        0 <= q < k && (#[trigger] table[q]).0@ == t && !dep_name_match(deps, t),
            decreases table.len() - k,
        {
            let ghost errs_before = errs.extra@;
            let matched = any_dep_named(&root.dependencies, &root.third_party[k].0);
            if matched {
                let key = root.third_party[k].0.clone();
                let oncall = root.third_party[k].1.clone();
                ret.push((key, ExtraMetadata { oncall }));
            } else {
                let key = root.third_party[k].0.clone();
                errs.add_extra(key);
            }
            proof {
                if !matched {
                    assert(names_contain(errs.extra@, table[k as int].0@));
                    assert(errs.extra@.len() > 0);
                }
                assert forall|t: Seq<char>|
                    names_contain(errs.extra@, t) <==> exists|q: int|
                        0 <= q < k + 1 && (#[trigger] table[q]).0@ == t && !dep_name_match(
                            deps,
                            t,
                        ) by {
                    if names_contain(errs.extra@, t) {
                        if names_contain(errs_before, t) {
                            let q = choose|q: int|
                                0 <= q < k && (#[trigger] table[q]).0@ == t && !dep_name_match(
                                    deps,
                                    t,
                                );
                            assert(table[q].0@ == t && !dep_name_match(deps, t));
                        } else {
                            assert(!matched);
                            assert(table[k as int].0@ == t);
                        }
                    }
                    if exists|q: int|
                        0 <= q < k + 1 && (#[trigger] table[q]).0@ == t && !dep_name_match(
                            deps,
                            t,
                        ) {
                        let q = choose|q: int|
                            0 <= q < k + 1 && (#[trigger] table[q]).0@ == t && !dep_name_match(
                                deps,
                                t,
                            );
                        if q < k {
                            assert(names_contain(errs_before, t));
                            assert(names_contain(errs.extra@, t));
                        } else {
                            assert(!matched);
                            assert(t == table[k as int].0@);
                            assert(names_contain(errs.extra@, t));
                        }
                    }
                }
            }
            k = k + 1;
        }
        if errs.all_ok() {
            Result::Ok(ret)
        } else {
            proof {
                assert(names_contain(errs.extra@, (errs.extra@[0])@));
            }
            Result::Err(errs)
        }
    }

    /// The rule name seen by outside consumers: the recorded rename for the
    /// package's library target, else the bare package name.
    pub open spec fn spec_public_rule_name(self, pkg: Manifest) -> Seq<char> {
        let key = (pkg.id, TargetReq::Lib);
        if self.pt_view().dom().contains(key) && self.pt_view()[key] is Some {
            self.pt_view()[key]->0
        } else {
            pkg.name@
        }
    }

    /// Return the package public rule name.
    pub fn public_rule_name(&self, pkg: &Manifest) -> (r: Name)
        ensures
            r.0@ == self.spec_public_rule_name(*pkg),
    {
        match self.pt_get(pkg.id, TargetReq::Lib) {
            Option::Some(Option::Some(rn)) => Name(rn),
            _ => Name(pkg.name.clone()),
        }
    }

    /// The fully qualified private rule name: name, version, and — when the
    /// library target carries a rename — that rename, joined by hyphens.
    pub open spec fn spec_private_rule_name(self, pkg: Manifest) -> Seq<char> {
        let base = pkg.name@ + seq!['-'] + pkg.version@;
        let key = (pkg.id, TargetReq::Lib);
        if self.pt_view().dom().contains(key) && self.pt_view()[key] is Some {
            base + seq!['-'] + self.pt_view()[key]->0
        } else {
            base
        }
    }

    /// Return the private package rule name.
    pub fn private_rule_name(&self, pkg: &Manifest) -> (r: Name)
        ensures
            r.0@ == self.spec_private_rule_name(*pkg),
    {
        proof {
            reveal_strlit("-");
            assert("-"@ =~= seq!['-']);
        }
        let mut s = pkg.name.clone();
        s.append("-");
        s.append(pkg.version.as_str());
        match self.pt_get(pkg.id, TargetReq::Lib) {
            Option::Some(Option::Some(rn)) => {
                s.append("-");
                s.append(rn.as_str());
            },
            _ => {},
        }
        Name(s)
    }
}

/// Whether the names list holds a string with this view.
pub open spec fn names_contain(names: Seq<String>, t: Seq<char>) -> bool {
    exists|i: int| 0 <= i < names.len() && (#[trigger] names[i])@ == t
}

/// Names in ascending lexicographic order.
pub open spec fn sorted_names(names: Seq<String>) -> bool {
    forall|i: int, j: int|
        #![trigger names[i], names[j]]
        0 <= i < j < names.len() ==> seq_cmp(names[i]@, names[j]@) != Cmp::Gt
}

/// No name occurs twice.
pub open spec fn distinct_names(names: Seq<String>) -> bool {
    forall|i: int, j: int|
        #![trigger names[i], names[j]]
        0 <= i < j < names.len() ==> names[i]@ != names[j]@
}

/// Whether the name at index `k` sorts strictly before `s`.
fn name_lt(v: &Vec<String>, k: usize, s: &String) -> (r: bool)
    requires
        k < v@.len(),
    ensures
        r == (seq_cmp(v@[k as int]@, s@) == Cmp::Lt),
{
    strcmp(v[k].as_str(), s.as_str()) == Cmp::Lt
}

/// Cumulative validation failures in the extra-metadata table: the names
/// with no matching direct dependency, each recorded once.
#[derive(Debug)]
pub struct PackageMetaError {
    pub extra: Vec<String>,
}

impl PackageMetaError {
    /// An empty report.
    pub fn new() -> (r: PackageMetaError)
        ensures
            r.extra@.len() == 0,
    {
        PackageMetaError { extra: Vec::new() }
    }

    /// Whether no failure was recorded.
    pub fn all_ok(&self) -> (r: bool)
        ensures
            r == (self.extra@.len() == 0),
    {
        self.extra.len() == 0
    }

    /// Record one offending name: the report stays sorted and holds each
    /// name once, whatever order the names arrive in.
    pub fn add_extra(&mut self, s: String)
        requires
            sorted_names(old(self).extra@),
            distinct_names(old(self).extra@),
        ensures
            sorted_names(final(self).extra@),
            distinct_names(final(self).extra@),
            forall|t: Seq<char>|
                #![trigger names_contain(final(self).extra@, t)]
                names_contain(final(self).extra@, t) <==> names_contain(old(self).extra@, t) || t
                    == s@,
    {
        let mut i: usize = 0;
        while i < self.extra.len() && name_lt(&self.extra, i, &s)
            invariant
                i <= self.extra@.len(),
                self.extra@ == old(self).extra@,
                sorted_names(self.extra@),
                distinct_names(self.extra@),
                forall|k: int| 0 <= k < i ==> seq_cmp((#[trigger] self.extra@[k])@, s@) == Cmp::Lt,
            decreases self.extra@.len() - i,
        {
            i = i + 1;
        }
        if i < self.extra.len() {
            let c = strcmp(self.extra[i].as_str(), s.as_str());
            if c == Cmp::Eq {
                proof {
                    lemma_seq_cmp_eq(self.extra@[i as int]@, s@);
                    assert(names_contain(self.extra@, s@));
                }
                return ;
            }
        }
        proof {
            // s is not recorded yet: earlier names sort strictly before it,
            // the name at the stop position and everything after strictly
            // after it
            assert forall|k: int| 0 <= k < self.extra@.len() implies (
            #[trigger] self.extra@[k])@ != s@ by {
                lemma_seq_cmp_eq(self.extra@[k]@, s@);
                if k >= i {
                    if k > i {
                        assert(seq_cmp(self.extra@[i as int]@, self.extra@[k]@) != Cmp::Gt);
                    }
                    lemma_seq_cmp_trans(s@, self.extra@[i as int]@, self.extra@[k]@);
                    lemma_seq_cmp_flip(self.extra@[i as int]@, s@);
                    lemma_seq_cmp_flip(self.extra@[k]@, s@);
                }
            }
        }
        let ghost before = self.extra@;
        let ghost pos = i as int;
        self.extra.insert(i, s);
        proof {
            before.insert_ensures(pos, s);
            assert(self.extra@ == before.insert(pos, s));
            assert forall|p: int, q: int|
                #![trigger self.extra@[p], self.extra@[q]]
                0 <= p < q < self.extra@.len() implies seq_cmp(self.extra@[p]@, self.extra@[q]@)
                != Cmp::Gt && self.extra@[p]@ != self.extra@[q]@ by {
                if q < pos {
                    assert(self.extra@[p] == before[p] && self.extra@[q] == before[q]);
                } else if p < pos && q == pos {
                    assert(self.extra@[p] == before[p] && self.extra@[q] == s);
                    lemma_seq_cmp_eq(before[p]@, s@);
                } else if p < pos && q > pos {
                    assert(self.extra@[p] == before[p] && self.extra@[q] == before[q - 1]);
                } else if p == pos {
                    assert(self.extra@[p] == s && self.extra@[q] == before[q - 1]);
                    // q - 1 >= pos: the displaced names all sort strictly after s
                    lemma_seq_cmp_flip(before[q - 1]@, s@);
                    if q - 1 > pos {
                        assert(seq_cmp(before[pos]@, before[q - 1]@) != Cmp::Gt);
                    }
                    lemma_seq_cmp_trans(s@, before[pos]@, before[q - 1]@);
                    lemma_seq_cmp_flip(before[pos]@, s@);
                    lemma_seq_cmp_eq(s@, before[q - 1]@);
                } else {
                    assert(self.extra@[p] == before[p - 1] && self.extra@[q] == before[q - 1]);
                }
            }
            assert forall|t: Seq<char>|
                names_contain(self.extra@, t) <==> names_contain(before, t) || t == s@ by {
                if names_contain(self.extra@, t) {
                    let k = choose|k: int|
                        0 <= k < self.extra@.len() && (#[trigger] self.extra@[k])@ == t;
                    if k < pos {
                        assert(before[k]@ == t);
                    } else if k > pos {
                        assert(before[k - 1]@ == t);
                    }
                }
                if names_contain(before, t) {
                    let k = choose|k: int| 0 <= k < before.len() && (#[trigger] before[k])@ == t;
                    if k < pos {
                        assert(self.extra@[k]@ == t);
                    } else {
                        assert(self.extra@[k + 1]@ == t);
                    }
                }
                if t == s@ {
                    assert(self.extra@[pos]@ == t);
                }
            }
        }
    }
}

/// Whether some declared dependency carries this name.
pub open spec fn dep_name_match(deps: Seq<ManifestDep>, t: Seq<char>) -> bool {
    exists|i: int| 0 <= i < deps.len() && (#[trigger] deps[i]).name@ == t
}

/// Does some declared dependency carry this name?
fn any_dep_named(deps: &Vec<ManifestDep>, name: &String) -> (r: bool)
    ensures
        r == dep_name_match(deps@, name@),
{
    let mut i: usize = 0;
    while i < deps.len()
        invariant
            i <= deps@.len(),
            forall|k: int| 0 <= k < i ==> (#[trigger] deps@[k]).name@ != name@,
        decreases deps@.len() - i,
    {
        if deps[i].name == *name {
            return true;
        }
        i = i + 1;
    }
    false
}

/// The applicability table: which declared-dependency kinds can supply a
/// target of this kind.
pub open spec fn spec_applicable(kind: DepKind, tk: TargetKind) -> bool {
    match kind {
        DepKind::Normal => tk == TargetKind::Lib || tk == TargetKind::ProcMacro || tk
            == TargetKind::Bin || tk == TargetKind::Cdylib,
        DepKind::Dev => tk == TargetKind::Bench || tk == TargetKind::Test || tk
            == TargetKind::Example,
        DepKind::Build => tk == TargetKind::CustomBuild,
    }
}

/// Compute the applicability table.
pub fn applicable(kind: DepKind, tk: TargetKind) -> (r: bool)
    ensures
        r == spec_applicable(kind, tk),
{
    match kind {
        DepKind::Normal => tk == TargetKind::Lib || tk == TargetKind::ProcMacro || tk
            == TargetKind::Bin || tk == TargetKind::Cdylib,
        DepKind::Dev => tk == TargetKind::Bench || tk == TargetKind::Test || tk
            == TargetKind::Example,
        DepKind::Build => tk == TargetKind::CustomBuild,
    }
}

/// Whether a declaration belongs to the merge group of this dependency name
/// for a target of this kind.
pub open spec fn in_group(d: ManifestDep, tk: TargetKind, name: Seq<char>) -> bool {
    spec_applicable(d.kind, tk) && d.name@ == name
}

/// Whether the merge group has any declaration.
pub open spec fn group_nonempty(deps: Seq<ManifestDep>, tk: TargetKind, name: Seq<char>) -> bool {
    exists|i: int| 0 <= i < deps.len() && in_group(#[trigger] deps[i], tk, name)
}

/// Whether some declaration of the group is unconditional.
pub open spec fn group_unconditional(
    deps: Seq<ManifestDep>,
    tk: TargetKind,
    name: Seq<char>,
) -> bool {
    exists|i: int|
        0 <= i < deps.len() && in_group(#[trigger] deps[i], tk, name) && deps[i].target is None
}

/// The parsed predicate text a declaration contributes: one element when it
/// is in the group, conditional, and its condition parses; none otherwise.
pub open spec fn dep_pred_text(d: ManifestDep, tk: TargetKind, name: Seq<char>) -> Seq<Seq<char>> {
    if in_group(d, tk, name) && d.target is Some && is_cfg_form((d.target->0)@) {
        seq![cfg_inner((d.target->0)@)]
    } else {
        Seq::empty()
    }
}

/// The group's parsed predicate texts, in declaration order; declarations
/// whose condition fails to parse are dropped.
pub open spec fn group_pred_texts(
    deps: Seq<ManifestDep>,
    tk: TargetKind,
    name: Seq<char>,
) -> Seq<Seq<char>>
    decreases deps.len(),
{
    if deps.len() == 0 {
        Seq::empty()
    } else {
        dep_pred_text(deps[0], tk, name) + group_pred_texts(deps.skip(1), tk, name)
    }
}

/// One more declaration appends its contribution.
pub proof fn lemma_group_pred_texts_push(
    deps: Seq<ManifestDep>,
    d: ManifestDep,
    tk: TargetKind,
    name: Seq<char>,
)
    ensures
        group_pred_texts(deps.push(d), tk, name) == group_pred_texts(deps, tk, name)
            + dep_pred_text(d, tk, name),
    decreases deps.len(),
{
    if deps.len() == 0 {
        assert(deps.push(d)[0] == d);
        assert(deps.push(d).skip(1) =~= Seq::<ManifestDep>::empty());
        assert(dep_pred_text(d, tk, name) + group_pred_texts(Seq::empty(), tk, name)
            =~= dep_pred_text(d, tk, name));
        assert(group_pred_texts(deps, tk, name) + dep_pred_text(d, tk, name) =~= dep_pred_text(
            d,
            tk,
            name,
        ));
    } else {
        assert(deps.push(d)[0] == deps[0]);
        assert(deps.push(d).skip(1) =~= deps.skip(1).push(d));
        lemma_group_pred_texts_push(deps.skip(1), d, tk, name);
        assert(dep_pred_text(deps[0], tk, name) + (group_pred_texts(deps.skip(1), tk, name)
            + dep_pred_text(d, tk, name)) =~= (dep_pred_text(deps[0], tk, name)
            + group_pred_texts(deps.skip(1), tk, name)) + dep_pred_text(d, tk, name));
    }
}

/// The combined guard of the merge group for this dependency name: absent
/// when some declaration is unconditional or none parsed, else the guard of
/// the single predicate or of the disjunction.
pub open spec fn group_guard(deps: Seq<ManifestDep>, tk: TargetKind, name: Seq<char>) -> Option<
    Seq<char>,
> {
    guard_spec(group_unconditional(deps, tk, name), group_pred_texts(deps, tk, name))
}

/// The catalog name of the package an edge resolves to.
pub open spec fn edge_pkg_name(packages: Seq<Manifest>, e: EdgeView) -> Seq<char> {
    packages[pkg_lookup(packages, e.pkg)->0].name@
}

/// Whether an edge survives the per-target filter: its package's name has a
/// nonempty merge group.
pub open spec fn keep_edge(
    packages: Seq<Manifest>,
    decl: Seq<ManifestDep>,
    tk: TargetKind,
    e: EdgeView,
) -> bool {
    group_nonempty(decl, tk, edge_pkg_name(packages, e))
}

/// The edges that survive the per-target filter, in order.
pub open spec fn kept_edges(
    packages: Seq<Manifest>,
    decl: Seq<ManifestDep>,
    tk: TargetKind,
    flat: Seq<EdgeView>,
) -> Seq<EdgeView> {
    flat.filter(|e: EdgeView| keep_edge(packages, decl, tk, e))
}

/// Filtering one more edge keeps it exactly when its group is nonempty.
pub proof fn lemma_kept_edges_push(
    packages: Seq<Manifest>,
    decl: Seq<ManifestDep>,
    tk: TargetKind,
    flat: Seq<EdgeView>,
    e: EdgeView,
)
    ensures
        keep_edge(packages, decl, tk, e) ==> kept_edges(packages, decl, tk, flat.push(e))
            == kept_edges(packages, decl, tk, flat).push(e),
        !keep_edge(packages, decl, tk, e) ==> kept_edges(packages, decl, tk, flat.push(e))
            == kept_edges(packages, decl, tk, flat),
{
    assert(flat.push(e).drop_last() =~= flat);
    assert(flat.push(e).last() == e);
    reveal_with_fuel(Seq::filter, 2);
}

/// One resolved dependency of a build target: the catalog index of the
/// dependency's manifest, the combined platform guard, the resolved
/// rename/alias name, and the specific kind record (whose own platform
/// string is passed through unmodified).
pub struct ResolvedDep {
    pub package: usize,
    pub platform: Option<PlatformExpr>,
    pub rename: String,
    pub dep_kind: NodeDepKind,
}

/// Whether a node's edges can be resolved against the catalog.
fn check_node(node: &Node, packages: &Vec<Manifest>) -> (r: bool)
    ensures
        r == wf_node(*node, packages@),
{
    let mut i: usize = 0;
    while i < node.deps.len()
        invariant
            i <= node.deps@.len(),
            forall|q: int|
                0 <= q < i ==> pkg_lookup(packages@, (#[trigger] node.deps@[q]).pkg) is Some && (
                node.deps@[q].name is Some || forall|j: int|
                    0 <= j < node.deps@[q].dep_kinds@.len()
                        ==> (#[trigger] node.deps@[q].dep_kinds@[j]).extern_name is Some),
        decreases node.deps@.len() - i,
    {
        let dep = &node.deps[i];
        if find_pkg_idx(packages, dep.pkg).is_none() {
            proof {
                assert(pkg_lookup(packages@, node.deps@[i as int].pkg) is None);
                assert(!wf_node(*node, packages@));
            }
            return false;
        }
        match &dep.name {
            Option::Some(_) => {},
            Option::None => {
                let mut j: usize = 0;
                while j < dep.dep_kinds.len()
                    invariant
                        j <= dep.dep_kinds@.len(),
                        i < node.deps@.len(),
                        *dep == node.deps@[i as int],
                        dep.name is None,
                        forall|q: int|
                            0 <= q < j ==> (#[trigger] dep.dep_kinds@[q]).extern_name is Some,
                    decreases dep.dep_kinds@.len() - j,
                {
                    if dep.dep_kinds[j].extern_name.is_none() {
                        proof {
                            assert(node.deps@[i as int].name is None);
                            assert(node.deps@[i as int].dep_kinds@[j as int].extern_name is None);
                            assert(!wf_node(*node, packages@));
                        }
                        return false;
                    }
                    j = j + 1;
                }
            },
        }
        i = i + 1;
    }
    true
}

/// Whether a snapshot can be indexed: the check `Index::new` relies on.
pub fn check_metadata(meta: &Metadata) -> (r: bool)
    ensures
        r == wf_metadata(*meta),
{
    let root_id = match meta.resolve.root {
        Option::Some(id) => id,
        Option::None => {
            return false;
        },
    };
    if find_pkg_idx(&meta.packages, root_id).is_none() {
        return false;
    }
    let node_idx = match find_node_idx(&meta.resolve.nodes, root_id) {
        Option::Some(i) => i,
        Option::None => {
            return false;
        },
    };
    proof {
        lemma_node_lookup(meta.resolve.nodes@, root_id);
        assert(meta.resolve.nodes@[node_idx as int] == root_node_of(*meta));
    }
    check_node(&meta.resolve.nodes[node_idx], &meta.packages)
}

/// Keys recorded from edges: present exactly when already present or carried
/// by some entry.
pub proof fn lemma_pt_insert_dom(
    m: Map<(u64, TargetReq), Option<Seq<char>>>,
    root_deps: Seq<ManifestDep>,
    es: Seq<EdgeView>,
    key: (u64, TargetReq),
)
    ensures
        pt_insert_edges(m, root_deps, es).dom().contains(key) <==> m.dom().contains(key) || exists|
            k: int,
        | 0 <= k < es.len() && ((#[trigger] es[k]).pkg, es[k].kind.spec_target_req()) == key,
    decreases es.len(),
{
    if es.len() > 0 {
        let m2 = m.insert(
            (es[0].pkg, es[0].kind.spec_target_req()),
            rename_lookup(root_deps, es[0].name),
        );
        lemma_pt_insert_dom(m2, root_deps, es.skip(1), key);
        if pt_insert_edges(m, root_deps, es).dom().contains(key) {
            if m2.dom().contains(key) {
                assert((es[0].pkg, es[0].kind.spec_target_req()) == key || m.dom().contains(key));
            } else {
                let k = choose|k: int|
                    0 <= k < es.skip(1).len() && ((#[trigger] es.skip(1)[k]).pkg, es.skip(
                        1,
                    )[k].kind.spec_target_req()) == key;
                assert(es.skip(1)[k] == es[k + 1]);
            }
        }
        if m.dom().contains(key) {
            assert(m2.dom().contains(key));
        }
        if exists|k: int|
            0 <= k < es.len() && ((#[trigger] es[k]).pkg, es[k].kind.spec_target_req()) == key {
            let k = choose|k: int|
                0 <= k < es.len() && ((#[trigger] es[k]).pkg, es[k].kind.spec_target_req()) == key;
            if k == 0 {
                assert(m2.dom().contains(key));
            } else {
                assert(es.skip(1)[k - 1] == es[k]);
            }
        }
    }
}

/// Every flattened entry's package id is the package id of some edge.
pub proof fn lemma_flat_entry_pkgs(deps: Seq<NodeDep>, k: int)
    requires
        0 <= k < flat_entries(deps).len(),
    ensures
        exists|i: int| 0 <= i < deps.len() && (#[trigger] deps[i]).pkg == flat_entries(deps)[k].pkg,
    decreases deps.len(),
{
    if deps.len() > 0 {
        if k < edge_views(deps[0]).len() {
            assert(flat_entries(deps)[k] == edge_views(deps[0])[k]);
            assert(deps[0].pkg == flat_entries(deps)[k].pkg);
        } else {
            lemma_flat_entry_pkgs(deps.skip(1), k - edge_views(deps[0]).len());
            let i = choose|i: int|
                0 <= i < deps.skip(1).len() && (#[trigger] deps.skip(1)[i]).pkg == flat_entries(
                    deps.skip(1),
                )[k - edge_views(deps[0]).len()].pkg;
            assert(deps.skip(1)[i] == deps[i + 1]);
            assert(flat_entries(deps)[k] == flat_entries(deps.skip(1))[k - edge_views(
                deps[0],
            ).len()]);
        }
    }
}

/// Root-target visibility: a real root's library and any-binary targets are
/// both recorded; an unreal root — as long as none of its own resolved edges
/// targets the root itself — has neither recorded.
pub proof fn lemma_root_target_visibility(meta: Metadata, root_is_real: bool)
    requires
        wf_metadata(meta),
    ensures
        root_is_real ==> pt_map_of(meta, true).dom().contains((root_id_of(meta), TargetReq::Lib))
            && pt_map_of(meta, true).dom().contains((root_id_of(meta), TargetReq::EveryBin)),
        !root_is_real && (forall|i: int|
            0 <= i < root_node_of(meta).deps@.len() ==> (#[trigger] root_node_of(
                meta,
            ).deps@[i]).pkg != root_id_of(meta)) ==> !pt_map_of(meta, false).dom().contains(
            (root_id_of(meta), TargetReq::Lib),
        ) && !pt_map_of(meta, false).dom().contains((root_id_of(meta), TargetReq::EveryBin)),
{
    let base = pt_insert_edges(
        Map::empty(),
        root_pkg_of(meta).dependencies@,
        flat_entries(root_node_of(meta).deps@),
    );
    if !root_is_real && (forall|i: int|
        0 <= i < root_node_of(meta).deps@.len() ==> (#[trigger] root_node_of(meta).deps@[i]).pkg
            != root_id_of(meta)) {
        lemma_pt_insert_dom(
            Map::empty(),
            root_pkg_of(meta).dependencies@,
            flat_entries(root_node_of(meta).deps@),
            (root_id_of(meta), TargetReq::Lib),
        );
        lemma_pt_insert_dom(
            Map::empty(),
            root_pkg_of(meta).dependencies@,
            flat_entries(root_node_of(meta).deps@),
            (root_id_of(meta), TargetReq::EveryBin),
        );
        if base.dom().contains((root_id_of(meta), TargetReq::Lib)) {
            let k = choose|k: int|
                0 <= k < flat_entries(root_node_of(meta).deps@).len() && ((#[trigger] flat_entries(
                    root_node_of(meta).deps@,
                )[k]).pkg, flat_entries(root_node_of(meta).deps@)[k].kind.spec_target_req()) == (
                root_id_of(meta),
                TargetReq::Lib,
            );
            lemma_flat_entry_pkgs(root_node_of(meta).deps@, k);
        }
        if base.dom().contains((root_id_of(meta), TargetReq::EveryBin)) {
            let k = choose|k: int|
                0 <= k < flat_entries(root_node_of(meta).deps@).len() && ((#[trigger] flat_entries(
                    root_node_of(meta).deps@,
                )[k]).pkg, flat_entries(root_node_of(meta).deps@)[k].kind.spec_target_req()) == (
                root_id_of(meta),
                TargetReq::EveryBin,
            );
            lemma_flat_entry_pkgs(root_node_of(meta).deps@, k);
        }
    }
}

/// An unconditional declaration absorbs the whole merge group: the combined
/// guard is absent, wherever the declaration stands among the others.
pub proof fn lemma_unconditional_absorbs(deps: Seq<ManifestDep>, tk: TargetKind, name: Seq<char>)
    requires
        group_unconditional(deps, tk, name),
    ensures
        group_guard(deps, tk, name) is None,
{
}

/// Two or more parsed conditions for one dependency name combine to the
/// guard of their disjunction.
pub proof fn lemma_conditions_disjoin(deps: Seq<ManifestDep>, tk: TargetKind, name: Seq<char>)
    requires
        !group_unconditional(deps, tk, name),
        group_pred_texts(deps, tk, name).len() >= 2,
    ensures
        group_guard(deps, tk, name) == Option::Some(
            crate::platform::cfg_wrap(
                crate::platform::any_text(group_pred_texts(deps, tk, name)),
            ),
        ),
{
}

/// No target kind accepts two different declaration kinds: the applicability
/// table's rows are pairwise disjoint.
pub proof fn lemma_kind_applicability_disjoint(k1: DepKind, k2: DepKind, tk: TargetKind)
    requires
        k1 != k2,
    ensures
        !(spec_applicable(k1, tk) && spec_applicable(k2, tk)),
{
}

/// A dependency name whose declarations are all inapplicable to the target's
/// kind forms no merge group, so no resolved edge of that name is surfaced.
pub proof fn lemma_inapplicable_name_excluded(
    deps: Seq<ManifestDep>,
    tk: TargetKind,
    name: Seq<char>,
)
    requires
        forall|i: int|
            0 <= i < deps.len() && (#[trigger] deps[i]).name@ == name ==> !spec_applicable(
                deps[i].kind,
                tk,
            ),
    ensures
        !group_nonempty(deps, tk, name),
{
}

/// A result element corresponds to a surviving edge: looked-up package
/// index, the group's combined guard, the edge's effective name, the exact
/// kind record.
pub open spec fn rd_matches(
    packages: Seq<Manifest>,
    decl: Seq<ManifestDep>,
    tk: TargetKind,
    e: EdgeView,
    rd: ResolvedDep,
) -> bool {
    &&& pkg_lookup(packages, e.pkg) == Option::Some(rd.package as int)
    &&& rd.rename@ == e.name
    &&& rd.dep_kind == e.kind
    &&& view_opt_expr(rd.platform) == group_guard(decl, tk, edge_pkg_name(packages, e))
}

} // verus!
