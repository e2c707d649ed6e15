//! Decisions of the traversal of input paths: what to do with each entry,
//! which files are documents or archives, and how archive members are named.

use crate::wildcard::chars_of;
use vstd::prelude::*;
use vstd::string::StringExecFns;

verus! {

broadcast use vstd::std_specs::vec::group_vec_axioms;

/// What a path turned out to be when its metadata was read.
#[derive(Debug, Clone, Copy, PartialEq, Eq)]
pub enum EntryKind {
    Directory,
    File,
    /// Neither a directory nor a regular file.
    Other,
}

/// What the traversal does with an entry.
#[derive(Debug, Clone, Copy, PartialEq, Eq)]
pub enum Step {
    /// List the directory and traverse each of its entries.
    Descend,
    /// Open the archive and hand out each of its members.
    OpenArchive,
    /// Hand the file to the callback.
    Deliver,
    /// Nothing to do.
    Skip,
}

/// Whether `s` ends with `x`.
pub open spec fn has_suffix(s: Seq<char>, x: Seq<char>) -> bool {
    x.len() <= s.len() && s.subrange(s.len() - x.len(), s.len() as int) == x
}

/// The name suffix of archives.
pub open spec fn archive_suffix() -> Seq<char> {
    seq!['.', 'z', 'i', 'p']
}

/// The name suffix of documents.
pub open spec fn document_suffix() -> Seq<char> {
    seq!['.', 'x', 'm', 'l']
}

fn ends_with(s: &str, suffix: &str) -> (r: bool)
    ensures
        r == has_suffix(s@, suffix@),
{
    let a = chars_of(s);
    let b = chars_of(suffix);
    if b.len() > a.len() {
        return false;
    }
    let alen = a.len();
    let off = alen - b.len();
    let mut i: usize = 0;
    while i < b.len()
        invariant
            a@ == s@,
            a@.len() == alen,
            b@ == suffix@,
            off == a@.len() - b@.len(),
            i <= b@.len(),
            a@.subrange(off as int, off + i) == b@.take(i as int),
        decreases b@.len() - i,
    {
        if a[off + i] != b[i] {
            assert(a@.subrange(off as int, a@.len() as int)[i as int] != b@[i as int]);
            return false;
        }
        i = i + 1;
        assert(a@.subrange(off as int, off + i) =~= b@.take(i as int));
    }
    assert(b@.take(i as int) =~= b@);
    true
}

/// Whether `path` names an archive.
pub fn is_archive(path: &str) -> (r: bool)
    ensures
        r == has_suffix(path@, archive_suffix()),
{
    proof {
        reveal_strlit(".zip");
        assert(".zip"@ =~= archive_suffix());
    }
    ends_with(path, ".zip")
}

/// Whether `path` names a document.
pub fn is_document(path: &str) -> (r: bool)
    ensures
        r == has_suffix(path@, document_suffix()),
{
    proof {
        reveal_strlit(".xml");
        assert(".xml"@ =~= document_suffix());
    }
    ends_with(path, ".xml")
}

/// What to do with the entry at `path`, of the given kind: descend into a
/// directory, open an archive, deliver any other file, skip anything else.
pub fn next_step(kind: EntryKind, path: &str) -> (r: Step)
    ensures
        kind == EntryKind::Directory ==> r == Step::Descend,
        kind == EntryKind::File && has_suffix(path@, archive_suffix()) ==> r == Step::OpenArchive,
        kind == EntryKind::File && !has_suffix(path@, archive_suffix()) ==> r == Step::Deliver,
        kind == EntryKind::Other ==> r == Step::Skip,
{
    match kind {
        EntryKind::Directory => Step::Descend,
        EntryKind::File => {
            if is_archive(path) {
                Step::OpenArchive
            } else {
                Step::Deliver
            }
        },
        EntryKind::Other => Step::Skip,
    }
}

/// The display path of an archive member: the archive's path, `/`, and the
/// member's name.
pub fn member_path(archive: &str, member: &str) -> (r: String)
    ensures
        r@ == archive@ + seq!['/'] + member@,
{
    proof {
        reveal_strlit("/");
        assert("/"@ =~= seq!['/']);
    }
    let mut r = archive.to_string();
    r.append("/");
    r.append(member);
    r
}

} // verus!
