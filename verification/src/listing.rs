//! The files of a directory tree, in the order of a depth-first walk.

use vstd::prelude::*;

verus! {

/// One entry of a directory, as reading the directory gave it.
pub enum DirEntry {
    /// A regular file, with its path.
    File(String),
    /// A directory, with its entries in the order in which they were read. A
    /// directory that could not be read has none.
    Directory(Vec<DirEntry>),
    /// Anything else: it is passed over.
    Other,
}

/// The paths of the files among `entries` and below them: each entry in
/// turn, a directory's files where the directory stands.
pub open spec fn files_in(entries: Seq<DirEntry>) -> Seq<String>
    decreases entries,
    via files_in_decreases
{
    if entries.len() == 0 {
        Seq::empty()
    } else {
        let before = files_in(entries.drop_last());
        match entries.last() {
            DirEntry::File(path) => before.push(path),
            DirEntry::Directory(children) => before + files_in(children@),
            DirEntry::Other => before,
        }
    }
}

#[via_fn]
proof fn files_in_decreases(entries: Seq<DirEntry>) {
    broadcast use vstd::std_specs::vec::axiom_vec_decreases_to_view;

    if entries.len() > 0 {
        assert(decreases_to!(entries => entries.drop_last()));
        assert(decreases_to!(entries => entries[entries.len() - 1]));
        match entries.last() {
            DirEntry::Directory(children) => {
                assert(decreases_to!(entries.last() => children));
                assert(decreases_to!(children => children@));
            },
            _ => {},
        }
    }
}

/// Appends to `out` the paths of the files among `entries` and below them,
/// in the order of a depth-first walk.
pub fn collect_files(entries: &Vec<DirEntry>, out: &mut Vec<String>)
    ensures
        final(out)@ == old(out)@ + files_in(entries@),
    decreases entries,
{
    let mut i: usize = 0;
    assert(entries@.take(0) =~= Seq::<DirEntry>::empty());
    assert(out@ =~= old(out)@ + files_in(entries@.take(0)));
    while i < entries.len()
        invariant
            i <= entries.len(),
            out@ == old(out)@ + files_in(entries@.take(i as int)),
        decreases entries.len() - i,
    {
        let ghost seen = entries@.take(i as int);
        proof {
            assert(entries@.take(i + 1).drop_last() =~= seen);
            assert(entries@.take(i + 1).last() == entries@[i as int]);
        }
        match &entries[i] {
            DirEntry::File(path) => {
                out.push(path.clone());
                assert(out@ =~= old(out)@ + files_in(seen).push(*path));
            },
            DirEntry::Directory(children) => {
                collect_files(children, out);
                assert(out@ =~= old(out)@ + (files_in(seen) + files_in(children@)));
            },
            DirEntry::Other => {},
        }
        i += 1;
    }
    proof {
        assert(entries@.take(entries@.len() as int) =~= entries@);
    }
}

} // verus!
