//! Tables of open files.

use crate::fs::filelike::{FileLike, FileView};
use crate::fs::store::{Store, StoreView};
use crate::ordered::{ascending, sorted_keys};
use std::collections::BTreeMap;
use vstd::prelude::*;

verus! {

broadcast use {vstd::std_specs::btree::group_btree_axioms, vstd::laws_cmp::group_laws_cmp};

/// What a table of open files stands for.
pub open spec fn files_view(m: Map<usize, FileLike>) -> Map<usize, FileView> {
    m.map_values(|f: FileLike| f@)
}

/// There are finitely many entries, and every one refers to places of the store.
pub open spec fn files_wf(files: Map<usize, FileView>, st: StoreView) -> bool {
    &&& files.dom().finite()
    &&& forall|fd: usize| #[trigger] files.dom().contains(fd) ==> files[fd].wf(st)
}

/// `fd` is the lowest number from `arg` on that is not in `used`.
pub open spec fn lowest_free(used: Set<usize>, arg: usize, fd: usize) -> bool {
    &&& arg <= fd
    &&& !used.contains(fd)
    &&& forall|i: usize| arg <= i < fd ==> #[trigger] used.contains(i)
}

/// The lowest number from `arg` on that is not in `used`.
pub open spec fn free_fd(used: Set<usize>, arg: usize) -> usize {
    choose|fd: usize| lowest_free(used, arg, fd)
}

/// There is a number from `arg` on that is not in `used`.
pub open spec fn has_free_fd(used: Set<usize>, arg: usize) -> bool {
    exists|fd: usize| arg <= fd && !(#[trigger] used.contains(fd))
}

/// The lowest free number is the one that [`free_fd`] names.
pub proof fn lemma_free_fd(used: Set<usize>, arg: usize, fd: usize)
    requires
        lowest_free(used, arg, fd),
    ensures
        free_fd(used, arg) == fd,
{
    let other = free_fd(used, arg);
    assert(lowest_free(used, arg, other));
    assert(other < fd ==> used.contains(other));
    assert(fd < other ==> used.contains(fd));
}

/// Where a number is free there is a lowest one, and [`free_fd`] names it.
pub proof fn lemma_free_fd_is_lowest(used: Set<usize>, arg: usize)
    requires
        has_free_fd(used, arg),
    ensures
        lowest_free(used, arg, free_fd(used, arg)),
{
    let fd = choose|fd: usize| arg <= fd && !(#[trigger] used.contains(fd));
    let least = lemma_lowest_exists(used, arg, fd);
    lemma_free_fd(used, arg, least);
}

proof fn lemma_lowest_exists(used: Set<usize>, arg: usize, fd: usize) -> (least: usize)
    requires
        arg <= fd,
        !used.contains(fd),
    ensures
        lowest_free(used, arg, least),
    decreases fd,
{
    if forall|i: usize| arg <= i < fd ==> #[trigger] used.contains(i) {
        fd
    } else {
        let i = choose|i: usize| arg <= i < fd && !(#[trigger] used.contains(i));
        lemma_lowest_exists(used, arg, i)
    }
}

/// A set of fewer numbers than there are leaves one out.
pub proof fn lemma_some_fd_is_free(used: Set<usize>)
    requires
        used.finite(),
        used.len() <= usize::MAX,
    ensures
        has_free_fd(used, 0),
{
    if !has_free_fd(used, 0) {
        let n = usize::MAX as int + 1;
        let ints = vstd::set_lib::set_int_range(0, n);
        vstd::set_lib::lemma_int_range(0, n);
        let image = used.map(|x: usize| x as int);
        assert forall|i: int| ints.contains(i) implies image.contains(i) by {
            let x = i as usize;
            assert(0usize <= x);
            assert(used.contains(x));
            assert(image.contains(x as int));
        }
        used.lemma_map_finite(|x: usize| x as int);
        vstd::set_lib::lemma_map_size_bound(used, image, |x: usize| x as int);
        vstd::set_lib::lemma_len_subset(ints, image);
        assert(false);
    }
}

pub fn find_free(files: &BTreeMap<usize, FileLike>, arg: usize) -> (fd: usize)
    requires
        has_free_fd(files@.dom(), arg),
    ensures
        fd == free_fd(files@.dom(), arg),
        lowest_free(files@.dom(), arg, fd),
{
    let ghost limit = choose|fd: usize| arg <= fd && !(#[trigger] files@.dom().contains(fd));
    let mut fd: usize = arg;
    while files.contains_key(&fd)
        invariant
            arg <= fd <= limit,
            !files@.dom().contains(limit),
            forall|i: usize| arg <= i < fd ==> #[trigger] files@.dom().contains(i),
        decreases limit - fd,
    {
        fd += 1;
    }
    proof {
        lemma_free_fd(files@.dom(), arg, fd);
    }
    fd
}

/// The store after the entries with the given numbers were dropped, in that order.
pub open spec fn drop_all(keys: Seq<usize>, files: Map<usize, FileView>, st: StoreView) -> StoreView
    decreases keys.len(),
{
    if keys.len() == 0 {
        st
    } else {
        files[keys.last()].dropped(drop_all(keys.drop_last(), files, st))
    }
}

/// Dropping entries keeps every place.
pub proof fn lemma_drop_all(keys: Seq<usize>, files: Map<usize, FileView>, st: StoreView)
    requires
        files_wf(files, st),
        forall|i: int| 0 <= i < keys.len() ==> files.dom().contains(#[trigger] keys[i]),
    ensures
        drop_all(keys, files, st).pipes.len() == st.pipes.len(),
        drop_all(keys, files, st).blobs == st.blobs,
        drop_all(keys, files, st).states == st.states,
        drop_all(keys, files, st).sets == st.sets,
    decreases keys.len(),
{
    if keys.len() > 0 {
        lemma_drop_all(keys.drop_last(), files, st);
        assert(files.dom().contains(keys[keys.len() - 1]));
    }
}

/// Empties a table, dropping its entries in ascending order.
pub fn close_all(files: &mut BTreeMap<usize, FileLike>, st: &mut Store)
    requires
        files_wf(files_view(old(files)@), old(st)@),
    ensures
        final(files)@ == Map::<usize, FileLike>::empty(),
        final(st)@ == drop_all(ascending(old(files)@.dom()), files_view(old(files)@), old(st)@),
{
    let ghost m = files@;
    let ghost v = files_view(m);
    let keys = sorted_keys(files);
    let mut i: usize = 0;
    assert(keys@.take(0) =~= Seq::empty());
    assert forall|k: int| 0 <= k < keys@.len() implies m.dom().contains(#[trigger] keys@[k]) by {
        assert(keys@.to_set().contains(keys@[k]));
    }
    while i < keys.len()
        invariant
            i <= keys@.len(),
            v == files_view(m),
            files_wf(v, old(st)@),
            forall|k: int| 0 <= k < keys@.len() ==> m.dom().contains(#[trigger] keys@[k]),
            forall|a: int, b: int| 0 <= a < b < keys@.len() ==> keys@[a] < keys@[b],
            st@ == drop_all(keys@.take(i as int), v, old(st)@),
            forall|fd: usize|
                #![trigger files@.dom().contains(fd)]
                files@.dom().contains(fd) <==> m.dom().contains(fd) && !keys@.take(i as int).contains(fd),
            forall|fd: usize| #[trigger] files@.dom().contains(fd) ==> files@[fd] == m[fd],
        decreases keys@.len() - i,
    {
        let fd: usize = keys[i];
        proof {
            lemma_drop_all(keys@.take(i as int), v, old(st)@);
            assert(keys@.take(i + 1).drop_last() =~= keys@.take(i as int));
            assert(!keys@.take(i as int).contains(fd));
            assert(v.dom().contains(fd));
        }
        if let Some(f) = files.remove(&fd) {
            f.note_release(st);
        }
        proof {
            assert forall|x: usize|
                #![trigger files@.dom().contains(x)]
                files@.dom().contains(x) <==> m.dom().contains(x) && !keys@.take(i + 1).contains(x) by {
                assert(keys@.take(i + 1) =~= keys@.take(i as int).push(fd));
                if keys@.take(i as int).contains(x) {
                    let k = choose|k: int| 0 <= k < i && keys@.take(i as int)[k] == x;
                    assert(keys@.take(i + 1)[k] == x);
                }
                let more = keys@.take(i + 1);
                if more.contains(x) && x != fd {
                    let k = choose|k: int| 0 <= k < more.len() && more[k] == x;
                    assert(keys@.take(i as int)[k] == x);
                }
                assert(keys@.take(i + 1)[i as int] == fd);
            }
        }
        i += 1;
    }
    proof {
        assert(keys@.take(i as int) =~= keys@);
        assert(files@ =~= Map::<usize, FileLike>::empty()) by {
            assert forall|fd: usize| !files@.dom().contains(fd) by {
                if m.dom().contains(fd) {
                    assert(keys@.to_set().contains(fd));
                }
            }
        }
    }
}

/// A copy of a table for a new process, with no entry to be closed on exec.
pub fn copy_all(files: &BTreeMap<usize, FileLike>) -> (r: BTreeMap<usize, FileLike>)
    ensures
        files_view(r@) == duplicated(files_view(files@)),
{
    let keys = sorted_keys(files);
    let mut out: BTreeMap<usize, FileLike> = BTreeMap::new();
    let mut i: usize = 0;
    while i < keys.len()
        invariant
            i <= keys@.len(),
            keys@.to_set() == files@.dom(),
            forall|fd: usize|
                #![trigger out@.dom().contains(fd)]
                out@.dom().contains(fd) <==> keys@.take(i as int).contains(fd),
            forall|fd: usize| #[trigger]
                out@.dom().contains(fd) ==> files@.dom().contains(fd) && out@[fd]@ == files@[fd]@.dup(false),
        decreases keys@.len() - i,
    {
        let fd: usize = keys[i];
        assert(keys@.to_set().contains(fd));
        if let Some(f) = files.get(&fd) {
            let d = f.dup(false);
            out.insert(fd, d);
        }
        proof {
            assert(keys@.take(i + 1) =~= keys@.take(i as int).push(fd));
            assert forall|x: usize|
                #![trigger out@.dom().contains(x)]
                out@.dom().contains(x) <==> keys@.take(i + 1).contains(x) by {
                if keys@.take(i as int).contains(x) {
                    let k = choose|k: int| 0 <= k < i && keys@.take(i as int)[k] == x;
                    assert(keys@.take(i + 1)[k] == x);
                }
                let more = keys@.take(i + 1);
                if more.contains(x) && x != fd {
                    let k = choose|k: int| 0 <= k < more.len() && more[k] == x;
                    assert(keys@.take(i as int)[k] == x);
                }
                assert(keys@.take(i + 1)[i as int] == fd);
            }
        }
        i += 1;
    }
    proof {
        assert(keys@.take(i as int) =~= keys@);
        assert forall|fd: usize| out@.dom().contains(fd) <==> files@.dom().contains(fd) by {
            assert(keys@.to_set().contains(fd) == files@.dom().contains(fd));
        }
        assert(files_view(out@) =~= duplicated(files_view(files@)));
    }
    out
}

/// A table with every entry duplicated.
pub open spec fn duplicated(files: Map<usize, FileView>) -> Map<usize, FileView> {
    files.map_values(|f: FileView| f.dup(false))
}

} // verus!
