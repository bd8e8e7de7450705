//! The data model of a resolved metadata snapshot: package manifests with
//! their declared dependencies and build targets, and the resolved dependency
//! graph with its per-edge kind records.

use vstd::prelude::*;

verus! {

/// Kind of a declared dependency.
#[derive(Clone, Copy, PartialEq, Eq, Structural, Debug)]
pub enum DepKind {
    Normal,
    Dev,
    Build,
}

/// Kind of a build target.
#[derive(Clone, Copy, PartialEq, Eq, Structural, Debug)]
pub enum TargetKind {
    Lib,
    Bin,
    Example,
    Test,
    Bench,
    ProcMacro,
    Cdylib,
    CustomBuild,
}

/// A query key: the library target of a package, or any of its binary targets.
#[derive(Clone, Copy, PartialEq, Eq, Structural, Debug)]
pub enum TargetReq {
    Lib,
    EveryBin,
}

/// One build target declared by a package.
pub struct ManifestTarget {
    pub kind: TargetKind,
    pub name: String,
}

/// One declared (unresolved) dependency of a package. `target` is the
/// platform-condition string; absent means unconditional.
pub struct ManifestDep {
    pub name: String,
    pub rename: Option<String>,
    pub kind: DepKind,
    pub target: Option<String>,
}

/// A package's manifest. The id is the snapshot's opaque unique key for one
/// (name, version, source) combination, held as a small stable integer.
/// `third_party` is the typed "third-party" sub-table of the free-form
/// metadata blob, already decoded to (package name, oncall) pairs; an absent
/// table is the empty list.
pub struct Manifest {
    pub id: u64,
    pub name: String,
    pub version: String,
    pub source: Option<String>,
    pub dependencies: Vec<ManifestDep>,
    pub targets: Vec<ManifestTarget>,
    pub third_party: Vec<(String, String)>,
}

/// One resolved dependency-kind record attached to a graph edge. `target` is
/// the record's own platform string, passed through unmodified.
pub struct NodeDepKind {
    pub kind: DepKind,
    pub extern_name: Option<String>,
    pub target: Option<String>,
}

impl NodeDepKind {
    /// The target requirement this kind record places on the dependency:
    /// its library target.
    pub open spec fn spec_target_req(self) -> TargetReq {
        TargetReq::Lib
    }

    /// Compute the target requirement of this kind record.
    pub fn target_req(&self) -> (r: TargetReq)
        ensures
            r == self.spec_target_req(),
    {
        TargetReq::Lib
    }

    /// An exact copy of this kind record.
    pub fn duplicate(&self) -> (r: NodeDepKind)
        ensures
            r == *self,
    {
        NodeDepKind {
            kind: self.kind,
            extern_name: clone_opt_string(&self.extern_name),
            target: clone_opt_string(&self.target),
        }
    }
}

/// One resolved edge of the graph: the dependency's package id, an optional
/// edge-level name, and one or more kind records.
pub struct NodeDep {
    pub pkg: u64,
    pub name: Option<String>,
    pub dep_kinds: Vec<NodeDepKind>,
}

/// One node of the resolution graph: a package's resolved feature set and its
/// resolved dependency edges.
pub struct Node {
    pub id: u64,
    pub features: Vec<String>,
    pub deps: Vec<NodeDep>,
}

/// The resolve section of a metadata snapshot: the declared resolution root
/// and the flat node list.
pub struct Resolve {
    pub root: Option<u64>,
    pub nodes: Vec<Node>,
}

/// A resolved metadata snapshot: the flat package list plus the resolved
/// dependency graph.
pub struct Metadata {
    pub packages: Vec<Manifest>,
    pub resolve: Resolve,
}

/// An exact copy of an optional string.
pub fn clone_opt_string(o: &Option<String>) -> (r: Option<String>)
    ensures
        r == *o,
{
    match o {
        Option::Some(s) => Option::Some(s.clone()),
        Option::None => Option::None,
    }
}

} // verus!
