//! Finding the archives in a directory tree that was read beforehand.

use crate::names::{
    is_archive, is_archive_name, is_entry_name, is_plain_dir, join, joined, lemma_parent_of_joined,
    lemma_stem, parent_of,
};
use vstd::prelude::*;
use vstd::string::*;

verus! {

/// One entry of a directory, with all that lies below it.
pub enum Node {
    /// A regular file.
    File { name: String },
    /// Anything else; what could be listed under it are its children, in
    /// the order in which the listing gave them.
    Dir { name: String, children: Vec<Node> },
}

/// An archive, named by the directory that holds it and by its file name.
pub struct ArchiveFile {
    pub dir: String,
    pub name: String,
}

/// What an `ArchiveFile` stands for.
pub struct ArchiveModel {
    pub dir: Seq<char>,
    pub name: Seq<char>,
}

impl ArchiveModel {
    /// The path of the archive.
    pub open spec fn path(self) -> Seq<char> {
        joined(self.dir, self.name)
    }
}

impl View for ArchiveFile {
    type V = ArchiveModel;

    open spec fn view(&self) -> ArchiveModel {
        ArchiveModel { dir: self.dir@, name: self.name@ }
    }
}

impl DeepView for ArchiveFile {
    type V = ArchiveModel;

    open spec fn deep_view(&self) -> ArchiveModel {
        self@
    }
}

impl ArchiveFile {
    /// The path of the archive.
    pub fn path(&self) -> (path: String)
        ensures
            path@ == self@.path(),
    {
        join(self.dir.as_str(), self.name.as_str())
    }

    /// A copy of this value.
    pub fn duplicate(&self) -> (copy: ArchiveFile)
        ensures
            copy == *self,
    {
        ArchiveFile { dir: self.dir.clone(), name: self.name.clone() }
    }
}

/// The archives that `node`, an entry of the directory `dir`, contributes:
/// itself if it is a file with the archive extension, and otherwise those
/// found below it.
pub open spec fn archives_at(dir: Seq<char>, node: Node) -> Seq<ArchiveModel>
    decreases node,
{
    match node {
        Node::File { name } => if is_archive(name@) {
            seq![ArchiveModel { dir: dir, name: name@ }]
        } else {
            Seq::empty()
        },
        Node::Dir { name, children } => archives_in(joined(dir, name@), children@),
    }
}

/// The archives among `nodes`, the entries of the directory `dir`, and
/// below them: entry by entry in the order given, each directory's own
/// archives in the place where the directory stands.
pub open spec fn archives_in(dir: Seq<char>, nodes: Seq<Node>) -> Seq<ArchiveModel>
    decreases nodes,
{
    if nodes.len() == 0 {
        Seq::empty()
    } else {
        archives_in(dir, nodes.drop_last()) + archives_at(dir, nodes.last())
    }
}

/// Appends to `found` the archives among `entries` and below them.
fn collect(dir: &str, entries: &Vec<Node>, found: &mut Vec<ArchiveFile>)
    ensures
        final(found).deep_view() == old(found).deep_view() + archives_in(dir@, entries@),
    decreases entries,
{
    let mut i: usize = 0;
    assert(entries@.take(0) =~= Seq::empty());
    while i < entries.len()
        invariant
            i <= entries.len(),
            found.deep_view() == old(found).deep_view() + archives_in(
                dir@,
                entries@.take(i as int),
            ),
        decreases entries.len() - i,
    {
        let ghost before = found.deep_view();
        let ghost so_far = archives_in(dir@, entries@.take(i as int));
        let ghost here = archives_at(dir@, entries@[i as int]);
        assert(archives_in(dir@, entries@.take(i + 1)) == so_far + here) by {
            assert(entries@.take(i + 1).drop_last() =~= entries@.take(i as int));
            assert(entries@.take(i + 1).last() == entries@[i as int]);
        }
        match &entries[i] {
            Node::File { name } => {
                if is_archive_name(name.as_str()) {
                    found.push(ArchiveFile { dir: String::from_str(dir), name: name.clone() });
                    assert(found.deep_view() =~= before + seq![
                        ArchiveModel { dir: dir@, name: name@ },
                    ]);
                }
            },
            Node::Dir { name, children } => {
                let below = join(dir, name.as_str());
                collect(below.as_str(), children, found);
            },
        }
        assert(found.deep_view() =~= before + here);
        assert(before + here =~= old(found).deep_view() + (so_far + here));
        i = i + 1;
    }
    assert(entries@.take(i as int) =~= entries@);
}

/// Finds the archives in the tree whose top directory is `root` and whose
/// entries are `entries`.
pub fn find_archives(root: &str, entries: &Vec<Node>) -> (found: Vec<ArchiveFile>)
    ensures
        found.deep_view() == archives_in(root@, entries@),
{
    let mut found: Vec<ArchiveFile> = Vec::new();
    assert(found.deep_view() =~= Seq::empty());
    collect(root, entries, &mut found);
    found
}

/// Whether `node` is an archive or has one somewhere below it.
pub open spec fn holds_archive(node: Node) -> bool
    decreases node,
{
    match node {
        Node::File { name } => is_archive(name@),
        Node::Dir { name, children } => exists|i: int|
            0 <= i < children@.len() && holds_archive(#[trigger] children@[i]),
    }
}

/// An entry contributes no archive exactly when it holds none.
pub proof fn lemma_found_iff_held_at(dir: Seq<char>, node: Node)
    ensures
        archives_at(dir, node).len() == 0 <==> !holds_archive(node),
    decreases node,
{
    match node {
        Node::File { name } => {},
        Node::Dir { name, children } => {
            lemma_found_iff_held(joined(dir, name@), children@);
        },
    }
}

/// The scan finds nothing exactly when the tree holds no archive: it
/// misses none, at any depth, and it makes none up.
pub proof fn lemma_found_iff_held(dir: Seq<char>, nodes: Seq<Node>)
    ensures
        archives_in(dir, nodes).len() == 0 <==> forall|i: int|
            0 <= i < nodes.len() ==> !holds_archive(#[trigger] nodes[i]),
    decreases nodes,
{
    if nodes.len() > 0 {
        let front = nodes.drop_last();
        lemma_found_iff_held(dir, front);
        lemma_found_iff_held_at(dir, nodes.last());
        if archives_in(dir, nodes).len() == 0 {
            assert forall|i: int| 0 <= i < nodes.len() implies !holds_archive(
                #[trigger] nodes[i],
            ) by {
                if i < front.len() {
                    assert(front[i] == nodes[i]);
                }
            }
        } else {
            if archives_in(dir, front).len() != 0 {
                let i = choose|i: int| 0 <= i < front.len() && holds_archive(#[trigger] front[i]);
                assert(nodes[i] == front[i]);
            } else {
                assert(holds_archive(nodes[nodes.len() - 1]));
            }
        }
    }
}

/// Whether `node` and all that lies below it bear the names of entries,
/// as the listing of a directory gives them.
pub open spec fn well_named(node: Node) -> bool
    decreases node,
{
    match node {
        Node::File { name } => is_entry_name(name@),
        Node::Dir { name, children } => is_entry_name(name@) && forall|i: int|
            0 <= i < children@.len() ==> well_named(#[trigger] children@[i]),
    }
}

/// What the scan of a plain directory finds: a file with the archive
/// extension, in the directory that is the parent of its path.
pub open spec fn found_in_place(archive: ArchiveModel) -> bool {
    &&& is_archive(archive.name)
    &&& parent_of(archive.path()) == Some(archive.dir)
}

/// Every archive that an entry contributes is found in its place.
pub proof fn lemma_found_in_place_at(dir: Seq<char>, node: Node, at: int)
    requires
        is_plain_dir(dir),
        well_named(node),
        0 <= at < archives_at(dir, node).len(),
    ensures
        found_in_place(archives_at(dir, node)[at]),
    decreases node,
{
    match node {
        Node::File { name } => {
            lemma_parent_of_joined(dir, name@);
        },
        Node::Dir { name, children } => {
            let below = joined(dir, name@);
            lemma_parent_of_joined(dir, name@);
            lemma_stem(below);
            lemma_found_in_place(below, children@, at);
        },
    }
}

/// Every archive that the scan finds has the archive extension, and the
/// directory it is said to lie in is the parent of its path: the
/// decompression tool, which runs in that directory, runs beside the
/// archive.
pub proof fn lemma_found_in_place(dir: Seq<char>, nodes: Seq<Node>, at: int)
    requires
        is_plain_dir(dir),
        forall|i: int| 0 <= i < nodes.len() ==> well_named(#[trigger] nodes[i]),
        0 <= at < archives_in(dir, nodes).len(),
    ensures
        found_in_place(archives_in(dir, nodes)[at]),
    decreases nodes,
{
    let front = nodes.drop_last();
    let before = archives_in(dir, front);
    if at < before.len() {
        assert forall|i: int| 0 <= i < front.len() implies well_named(#[trigger] front[i]) by {
            assert(front[i] == nodes[i]);
        }
        lemma_found_in_place(dir, front, at);
    } else {
        assert(well_named(nodes[nodes.len() - 1]));
        lemma_found_in_place_at(dir, nodes.last(), at - before.len());
    }
}

} // verus!
