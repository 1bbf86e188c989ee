//! The registry of kernel objects.

use crate::ordered::{ascending, lemma_ascending_exists, sorted_keys, strictly_ascending};
use crate::sequences::lemma_filter_push;
use std::collections::BTreeMap;
use vstd::prelude::*;

verus! {

broadcast use {vstd::std_specs::btree::group_btree_axioms, vstd::laws_cmp::group_laws_cmp};

#[derive(Clone, Copy, Debug, PartialEq, Eq, Structural)]
pub struct KernelObjectEntry {
    pub obj_id: usize,
    pub type_tag: u32,
    pub owner_pid: usize,
    pub created_tick: usize,
    pub ref_count: usize,
    pub parent_id: Option<usize>,
}

/// Objects by number, the next number, and the numbers of the objects of each type.
pub struct KernelObjectRegistry {
    pub objects: BTreeMap<usize, KernelObjectEntry>,
    pub seq: usize,
    pub type_index: BTreeMap<u32, Vec<usize>>,
}

/// What a registry stands for.
#[verifier::ext_equal]
pub ghost struct RegistryView {
    pub objects: Map<usize, KernelObjectEntry>,
    pub seq: usize,
    pub type_index: Map<u32, Seq<usize>>,
}

/// What an index stands for.
pub open spec fn index_view(m: Map<u32, Vec<usize>>) -> Map<u32, Seq<usize>> {
    m.map_values(|v: Vec<usize>| v@)
}

impl View for KernelObjectRegistry {
    type V = RegistryView;

    open spec fn view(&self) -> RegistryView {
        RegistryView { objects: self.objects@, seq: self.seq, type_index: index_view(self.type_index@) }
    }
}

pub open spec fn not_id(id: usize) -> spec_fn(usize) -> bool {
    |x: usize| x != id
}

pub open spec fn is_dead(objects: Map<usize, KernelObjectEntry>) -> spec_fn(usize) -> bool {
    |id: usize| objects[id].ref_count == 0
}

pub open spec fn is_owned(objects: Map<usize, KernelObjectEntry>, pid: usize) -> spec_fn(usize) -> bool {
    |id: usize| objects[id].owner_pid == pid
}

/// The pairs of parent and child among the given objects.
pub open spec fn edges(ids: Seq<usize>, objects: Map<usize, KernelObjectEntry>) -> Seq<(usize, usize)>
    decreases ids.len(),
{
    if ids.len() == 0 {
        Seq::empty()
    } else {
        let front = edges(ids.drop_last(), objects);
        match objects[ids.last()].parent_id {
            Some(p) => front.push((p, ids.last())),
            None => front,
        }
    }
}

impl RegistryView {
    /// The numbers of the objects of a type.
    pub open spec fn of_type(self, tag: u32) -> Seq<usize> {
        if self.type_index.dom().contains(tag) {
            self.type_index[tag]
        } else {
            Seq::empty()
        }
    }

    /// A new object under the next number.
    pub open spec fn with_object(self, type_tag: u32, owner_pid: usize, parent_id: Option<usize>, tick: usize) -> RegistryView {
        RegistryView {
            objects: self.objects.insert(
                self.seq,
                KernelObjectEntry {
                    obj_id: self.seq,
                    type_tag,
                    owner_pid,
                    created_tick: tick,
                    ref_count: 1,
                    parent_id,
                },
            ),
            seq: self.seq.wrapping_add(1),
            type_index: self.type_index.insert(type_tag, self.of_type(type_tag).push(self.seq)),
        }
    }

    /// The object is gone, from the index too.
    pub open spec fn without(self, id: usize) -> RegistryView {
        if self.objects.dom().contains(id) {
            let tag = self.objects[id].type_tag;
            RegistryView {
                objects: self.objects.remove(id),
                type_index: if self.type_index.dom().contains(tag) {
                    self.type_index.insert(tag, self.type_index[tag].filter(not_id(id)))
                } else {
                    self.type_index
                },
                ..self
            }
        } else {
            self
        }
    }

    /// The objects are gone, one after another.
    pub open spec fn without_all(self, ids: Seq<usize>) -> RegistryView
        decreases ids.len(),
    {
        if ids.len() == 0 {
            self
        } else {
            self.without_all(ids.drop_last()).without(ids.last())
        }
    }

    /// The objects that nothing refers to.
    pub open spec fn dead(self) -> Seq<usize> {
        ascending(self.objects.dom()).filter(is_dead(self.objects))
    }

    pub open spec fn with_count(self, id: usize, n: usize) -> RegistryView {
        RegistryView {
            objects: self.objects.insert(id, KernelObjectEntry { ref_count: n, ..self.objects[id] }),
            ..self
        }
    }

    /// The index lists just the objects there are, each under its type.
    pub open spec fn wf(self) -> bool {
        &&& forall|id: usize| #[trigger]
            self.objects.dom().contains(id) ==> self.of_type(self.objects[id].type_tag).contains(id)
        &&& forall|tag: u32, id: usize| #[trigger]
            self.of_type(tag).contains(id) ==> self.objects.dom().contains(id) && self.objects[id].type_tag == tag
    }
}

impl RegistryView {
    /// The index is in step, each of its lists ascends, so that no number is in one twice, and
    /// every number in use is below the next one to be given.
    pub open spec fn orderly(self) -> bool {
        &&& self.wf()
        &&& forall|tag: u32| strictly_ascending(#[trigger] self.of_type(tag))
        &&& forall|id: usize| #[trigger] self.objects.dom().contains(id) ==> id < self.seq
    }
}

fn without_id(v: &Vec<usize>, id: usize) -> (r: Vec<usize>)
    ensures
        r@ == v@.filter(not_id(id)),
{
    let mut rest: Vec<usize> = Vec::new();
    let mut i: usize = 0;
    proof {
        reveal(Seq::filter);
        assert(v@.take(0).filter(not_id(id)) =~= Seq::empty());
    }
    while i < v.len()
        invariant
            i <= v@.len(),
            rest@ == v@.take(i as int).filter(not_id(id)),
        decreases v@.len() - i,
    {
        proof {
            assert(v@.take(i as int).push(v@[i as int]) =~= v@.take(i + 1));
            lemma_filter_push(v@.take(i as int), v@[i as int], not_id(id));
        }
        if v[i] != id {
            rest.push(v[i]);
        }
        i += 1;
    }
    assert(v@.take(i as int) =~= v@);
    rest
}

impl KernelObjectRegistry {
    pub fn new() -> (r: Self)
        ensures
            r@ == (RegistryView { objects: Map::empty(), seq: 1, type_index: Map::empty() }),
            r@.orderly(),
    {
        let r = KernelObjectRegistry { objects: BTreeMap::new(), seq: 1, type_index: BTreeMap::new() };
        assert(r@.type_index =~= Map::empty());
        r
    }

    fn enter(&mut self, type_tag: u32, owner_pid: usize, parent_id: Option<usize>, tick: usize) -> (id: usize)
        ensures
            id == old(self)@.seq,
            final(self)@ == old(self)@.with_object(type_tag, owner_pid, parent_id, tick),
    {
        let id: usize = self.seq;
        self.seq = self.seq.wrapping_add(1);
        self.objects.insert(
            id,
            KernelObjectEntry { obj_id: id, type_tag, owner_pid, created_tick: tick, ref_count: 1, parent_id },
        );
        let mut list: Vec<usize> = match self.type_index.remove(&type_tag) {
            Some(v) => v,
            None => Vec::new(),
        };
        assert(list@ =~= old(self)@.of_type(type_tag));
        list.push(id);
        self.type_index.insert(type_tag, list);
        assert(self@.type_index =~= old(self)@.with_object(type_tag, owner_pid, parent_id, tick).type_index);
        id
    }

    /// Registers an object of a process at time `tick`.
    pub fn register(&mut self, type_tag: u32, owner_pid: usize, tick: usize) -> (id: usize)
        ensures
            id == old(self)@.seq,
            final(self)@ == old(self)@.with_object(type_tag, owner_pid, None, tick),
    {
        self.enter(type_tag, owner_pid, None, tick)
    }

    /// Registers an object below another.
    pub fn register_child(&mut self, type_tag: u32, owner_pid: usize, parent: usize, tick: usize) -> (id: usize)
        ensures
            id == old(self)@.seq,
            final(self)@ == old(self)@.with_object(type_tag, owner_pid, Some(parent), tick),
    {
        self.enter(type_tag, owner_pid, Some(parent), tick)
    }

    /// Takes an object off, and tells whether there was one.
    pub fn unregister(&mut self, id: usize) -> (r: bool)
        ensures
            r == old(self)@.objects.dom().contains(id),
            final(self)@ == old(self)@.without(id),
    {
        match self.objects.remove(&id) {
            Some(entry) => {
                if let Some(v) = self.type_index.remove(&entry.type_tag) {
                    self.type_index.insert(entry.type_tag, without_id(&v, id));
                }
                assert(self@.type_index =~= old(self)@.without(id).type_index);
                true
            },
            None => {
                assert(self@.objects =~= old(self)@.objects);
                false
            },
        }
    }

    pub fn find_by_type(&self, tag: u32) -> (r: Vec<usize>)
        ensures
            r@ == self@.of_type(tag),
    {
        match self.type_index.get(&tag) {
            Some(v) => v.clone(),
            None => Vec::new(),
        }
    }

    /// The pairs of parent and child, in the order of the children.
    pub fn dump_graph(&self) -> (r: Vec<(usize, usize)>)
        ensures
            r@ == edges(ascending(self@.objects.dom()), self@.objects),
    {
        let keys = sorted_keys(&self.objects);
        let mut out: Vec<(usize, usize)> = Vec::new();
        let mut i: usize = 0;
        assert(out@ =~= edges(keys@.take(0), self@.objects));
        while i < keys.len()
            invariant
                i <= keys@.len(),
                keys@.to_set() == self.objects@.dom(),
                out@ == edges(keys@.take(i as int), self@.objects),
            decreases keys@.len() - i,
        {
            let id: usize = keys[i];
            assert(keys@.to_set().contains(id));
            assert(keys@.take(i + 1).drop_last() =~= keys@.take(i as int));
            if let Some(e) = self.objects.get(&id) {
                if let Some(p) = e.parent_id {
                    out.push((p, id));
                }
            }
            i += 1;
        }
        assert(keys@.take(i as int) =~= keys@);
        out
    }

    /// Takes off every object that nothing refers to, and returns how many they were.
    pub fn gc_sweep(&mut self) -> (r: usize)
        ensures
            r == old(self)@.dead().len(),
            final(self)@ == old(self)@.without_all(old(self)@.dead()),
    {
        let ghost objects = self@.objects;
        let keys = sorted_keys(&self.objects);
        let mut dead: Vec<usize> = Vec::new();
        let mut i: usize = 0;
        proof {
            reveal(Seq::filter);
            assert(keys@.take(0).filter(is_dead(objects)) =~= Seq::empty());
        }
        while i < keys.len()
            invariant
                i <= keys@.len(),
                objects == self.objects@,
                self@ == old(self)@,
                keys@.to_set() == objects.dom(),
                dead@ == keys@.take(i as int).filter(is_dead(objects)),
            decreases keys@.len() - i,
        {
            let id: usize = keys[i];
            proof {
                assert(keys@.to_set().contains(id));
                assert(keys@.take(i as int).push(id) =~= keys@.take(i + 1));
                lemma_filter_push(keys@.take(i as int), id, is_dead(objects));
            }
            if let Some(e) = self.objects.get(&id) {
                if e.ref_count == 0 {
                    dead.push(id);
                }
            }
            i += 1;
        }
        assert(keys@.take(i as int) =~= keys@);
        let mut j: usize = 0;
        assert(dead@.take(0) =~= Seq::empty());
        while j < dead.len()
            invariant
                j <= dead@.len(),
                self@ == old(self)@.without_all(dead@.take(j as int)),
            decreases dead@.len() - j,
        {
            assert(dead@.take(j + 1).drop_last() =~= dead@.take(j as int));
            self.unregister(dead[j]);
            j += 1;
        }
        assert(dead@.take(j as int) =~= dead@);
        dead.len()
    }

    /// Counts one more reference to an object, and tells whether there is one.
    pub fn ref_up(&mut self, id: usize) -> (r: bool)
        requires
            old(self)@.objects.dom().contains(id) ==> old(self)@.objects[id].ref_count < usize::MAX,
        ensures
            r == old(self)@.objects.dom().contains(id),
            final(self)@ == (if r {
                old(self)@.with_count(id, (old(self)@.objects[id].ref_count + 1) as usize)
            } else {
                old(self)@
            }),
    {
        match self.objects.remove(&id) {
            Some(mut e) => {
                e.ref_count += 1;
                self.objects.insert(id, e);
                assert(self@.objects =~= old(self)@.objects.insert(id, e));
                true
            },
            None => {
                assert(self@.objects =~= old(self)@.objects);
                false
            },
        }
    }

    /// Counts one reference less, down to none, and tells whether there is such an object.
    pub fn ref_down(&mut self, id: usize) -> (r: bool)
        ensures
            r == old(self)@.objects.dom().contains(id),
            final(self)@ == (if r {
                let n = old(self)@.objects[id].ref_count;
                old(self)@.with_count(
                    id,
                    if n == 0 {
                        0
                    } else {
                        (n - 1) as usize
                    },
                )
            } else {
                old(self)@
            }),
    {
        match self.objects.remove(&id) {
            Some(mut e) => {
                e.ref_count = e.ref_count.saturating_sub(1);
                self.objects.insert(id, e);
                assert(self@.objects =~= old(self)@.objects.insert(id, e));
                true
            },
            None => {
                assert(self@.objects =~= old(self)@.objects);
                false
            },
        }
    }

    pub fn count(&self) -> (r: usize)
        ensures
            r == self@.objects.dom().len(),
    {
        self.objects.len()
    }

    /// The numbers of the objects of a process, in ascending order.
    pub fn owner_objects(&self, pid: usize) -> (r: Vec<usize>)
        ensures
            r@ == ascending(self@.objects.dom()).filter(is_owned(self@.objects, pid)),
    {
        let ghost objects = self@.objects;
        let keys = sorted_keys(&self.objects);
        let mut out: Vec<usize> = Vec::new();
        let mut i: usize = 0;
        proof {
            reveal(Seq::filter);
            assert(keys@.take(0).filter(is_owned(objects, pid)) =~= Seq::empty());
        }
        while i < keys.len()
            invariant
                i <= keys@.len(),
                objects == self.objects@,
                keys@.to_set() == objects.dom(),
                out@ == keys@.take(i as int).filter(is_owned(objects, pid)),
            decreases keys@.len() - i,
        {
            let id: usize = keys[i];
            proof {
                assert(keys@.to_set().contains(id));
                assert(keys@.take(i as int).push(id) =~= keys@.take(i + 1));
                lemma_filter_push(keys@.take(i as int), id, is_owned(objects, pid));
            }
            if let Some(e) = self.objects.get(&id) {
                if e.owner_pid == pid {
                    out.push(id);
                }
            }
            i += 1;
        }
        assert(keys@.take(i as int) =~= keys@);
        out
    }
}

/// Registering keeps the index in step with the objects, as long as the next number is not in
/// use.
pub proof fn law_register_keeps_index(r: RegistryView, type_tag: u32, owner: usize, parent: Option<usize>, tick: usize)
    requires
        r.wf(),
        !r.objects.dom().contains(r.seq),
    ensures
        r.with_object(type_tag, owner, parent, tick).wf(),
        r.with_object(type_tag, owner, parent, tick).of_type(type_tag).last() == r.seq,
{
    let after = r.with_object(type_tag, owner, parent, tick);
    assert forall|id: usize| #[trigger] after.objects.dom().contains(id) implies after.of_type(
        after.objects[id].type_tag,
    ).contains(id) by {
        let tag = after.objects[id].type_tag;
        if id == r.seq {
            assert(after.of_type(tag)[r.of_type(tag).len() as int] == id);
        } else {
            let l = r.of_type(tag);
            assert(l.contains(id));
            let k = choose|k: int| 0 <= k < l.len() && l[k] == id;
            assert(after.of_type(tag)[k] == id);
        }
    }
    assert forall|tag: u32, id: usize| #[trigger] after.of_type(tag).contains(id) implies after.objects.dom().contains(
        id,
    ) && after.objects[id].type_tag == tag by {
        let l = after.of_type(tag);
        let k = choose|k: int| 0 <= k < l.len() && l[k] == id;
        if tag != type_tag || k < r.of_type(tag).len() {
            assert(r.of_type(tag)[k] == id);
            assert(r.of_type(tag).contains(id));
        }
    }
}

/// Unregistering keeps the index in step with the objects.
pub proof fn law_unregister_keeps_index(r: RegistryView, id: usize)
    requires
        r.wf(),
    ensures
        r.without(id).wf(),
        !r.without(id).objects.dom().contains(id),
{
    if r.objects.dom().contains(id) {
        let after = r.without(id);
        let gone = r.objects[id].type_tag;
        let l = r.of_type(gone);
        let f = l.filter(not_id(id));
        assert(l.contains(id));
        assert(r.type_index.dom().contains(gone));
        assert forall|x: usize| #[trigger] after.objects.dom().contains(x) implies after.of_type(
            after.objects[x].type_tag,
        ).contains(x) by {
            let tag = r.objects[x].type_tag;
            assert(r.of_type(tag).contains(x));
            if tag == gone {
                let k = choose|k: int| 0 <= k < l.len() && l[k] == x;
                l.lemma_filter_contains(not_id(id), k);
            }
        }
        assert forall|tag: u32, x: usize| #[trigger] after.of_type(tag).contains(x) implies after.objects.dom().contains(
            x,
        ) && after.objects[x].type_tag == tag by {
            if tag == gone {
                l.lemma_filter_contains_rev(not_id(id), x);
                let k = choose|k: int| 0 <= k < f.len() && f[k] == x;
                l.lemma_filter_pred(not_id(id), k);
                assert(r.of_type(tag).contains(x));
            } else {
                assert(r.of_type(tag).contains(x));
                if x == id {
                    assert(r.objects[id].type_tag == tag);
                }
            }
        }
    }
}

/// A sweep leaves just the objects that something refers to, as they were, and keeps the index
/// in step.
pub proof fn law_sweep(r: RegistryView)
    requires
        r.wf(),
        r.objects.dom().finite(),
    ensures
        r.without_all(r.dead()).wf(),
        forall|id: usize| #[trigger]
            r.without_all(r.dead()).objects.dom().contains(id) <==> r.objects.dom().contains(id)
                && r.objects[id].ref_count > 0,
        forall|id: usize| #[trigger]
            r.without_all(r.dead()).objects.dom().contains(id) ==> r.without_all(r.dead()).objects[id]
                == r.objects[id],
{
    let dead = r.dead();
    let all = ascending(r.objects.dom());
    lemma_without_all(r, dead);
    lemma_ascending_exists(r.objects.dom());
    assert forall|id: usize| r.objects.dom().contains(id) implies (dead.contains(id) <==> r.objects[id].ref_count
        == 0) by {
        assert(all.to_set().contains(id));
        let k = choose|k: int| 0 <= k < all.len() && all[k] == id;
        if r.objects[id].ref_count == 0 {
            all.lemma_filter_contains(is_dead(r.objects), k);
        }
        if dead.contains(id) {
            let j = choose|j: int| 0 <= j < dead.len() && dead[j] == id;
            all.lemma_filter_pred(is_dead(r.objects), j);
        }
    }
}

proof fn lemma_without_all(r: RegistryView, ids: Seq<usize>)
    requires
        r.wf(),
    ensures
        r.without_all(ids).wf(),
        forall|id: usize| #[trigger]
            r.without_all(ids).objects.dom().contains(id) <==> r.objects.dom().contains(id) && !ids.contains(id),
        forall|id: usize| #[trigger]
            r.without_all(ids).objects.dom().contains(id) ==> r.without_all(ids).objects[id] == r.objects[id],
    decreases ids.len(),
{
    if ids.len() > 0 {
        lemma_without_all(r, ids.drop_last());
        law_unregister_keeps_index(r.without_all(ids.drop_last()), ids.last());
        assert forall|id: usize| #[trigger] r.without_all(ids).objects.dom().contains(id)
            <==> r.objects.dom().contains(id) && !ids.contains(id) by {
            if ids.contains(id) && id != ids.last() {
                let k = choose|k: int| 0 <= k < ids.len() && ids[k] == id;
                assert(ids.drop_last()[k] == id);
            }
            if ids.drop_last().contains(id) {
                let k = choose|k: int| 0 <= k < ids.len() - 1 && ids.drop_last()[k] == id;
                assert(ids[k] == id);
            }
            assert(ids[ids.len() - 1] == ids.last());
        }
    }
}

/// Registering gives a number that is not in use and keeps the registry orderly, until the
/// numbers run out.
pub proof fn law_register_gives_a_new_number(
    r: RegistryView,
    type_tag: u32,
    owner: usize,
    parent: Option<usize>,
    tick: usize,
)
    requires
        r.orderly(),
        r.seq < usize::MAX,
    ensures
        !r.objects.dom().contains(r.seq),
        forall|tag: u32| !(#[trigger] r.of_type(tag)).contains(r.seq),
        r.with_object(type_tag, owner, parent, tick).orderly(),
        r.with_object(type_tag, owner, parent, tick).seq > r.seq,
{
    let after = r.with_object(type_tag, owner, parent, tick);
    assert(!r.objects.dom().contains(r.seq));
    assert forall|tag: u32| !(#[trigger] r.of_type(tag)).contains(r.seq) by {
        if r.of_type(tag).contains(r.seq) {
            assert(r.objects.dom().contains(r.seq));
        }
    }
    law_register_keeps_index(r, type_tag, owner, parent, tick);
    assert forall|tag: u32| strictly_ascending(#[trigger] after.of_type(tag)) by {
        let l = r.of_type(tag);
        let m = after.of_type(tag);
        assert(strictly_ascending(l));
        if tag == type_tag {
            assert(m == l.push(r.seq));
            assert forall|i: int, j: int| 0 <= i < j < m.len() implies m[i] < m[j] by {
                if j == l.len() {
                    assert(l.contains(l[i]));
                    assert(r.objects.dom().contains(l[i]));
                }
            }
        } else {
            assert(m == l);
        }
    }
}

/// Unregistering and counting references keep the registry orderly.
pub proof fn law_registry_stays_orderly(r: RegistryView, id: usize, n: usize)
    requires
        r.orderly(),
    ensures
        r.without(id).orderly(),
        r.without(id).seq == r.seq,
        r.objects.dom().contains(id) ==> r.with_count(id, n).orderly(),
{
    law_unregister_keeps_index(r, id);
    if r.objects.dom().contains(id) {
        let after = r.without(id);
        let gone = r.objects[id].type_tag;
        assert(r.of_type(gone).contains(id));
        assert forall|tag: u32| strictly_ascending(#[trigger] after.of_type(tag)) by {
            assert(strictly_ascending(r.of_type(tag)));
            if tag == gone {
                lemma_filter_ascends(r.of_type(tag), not_id(id));
            } else {
                assert(after.of_type(tag) == r.of_type(tag));
            }
        }
        let counted = r.with_count(id, n);
        assert forall|tag: u32| counted.of_type(tag) == #[trigger] r.of_type(tag) by {}
        assert forall|x: usize| #[trigger] counted.objects.dom().contains(x) implies counted.of_type(
            counted.objects[x].type_tag,
        ).contains(x) && x < counted.seq by {
            assert(r.objects.dom().contains(x));
            assert(r.of_type(r.objects[x].type_tag).contains(x));
        }
        assert forall|tag: u32, x: usize| #[trigger] counted.of_type(tag).contains(x) implies counted.objects.dom().contains(
            x,
        ) && counted.objects[x].type_tag == tag by {
            assert(r.of_type(tag).contains(x));
        }
        assert forall|tag: u32| strictly_ascending(#[trigger] counted.of_type(tag)) by {
            assert(strictly_ascending(r.of_type(tag)));
        }
    }
}

/// A sweep keeps the registry orderly.
pub proof fn law_sweep_stays_orderly(r: RegistryView)
    requires
        r.orderly(),
    ensures
        r.without_all(r.dead()).orderly(),
        r.without_all(r.dead()).seq == r.seq,
{
    lemma_all_orderly(r, r.dead());
}

proof fn lemma_all_orderly(r: RegistryView, ids: Seq<usize>)
    requires
        r.orderly(),
    ensures
        r.without_all(ids).orderly(),
        r.without_all(ids).seq == r.seq,
    decreases ids.len(),
{
    if ids.len() > 0 {
        lemma_all_orderly(r, ids.drop_last());
        law_registry_stays_orderly(r.without_all(ids.drop_last()), ids.last(), 0);
    }
}

proof fn lemma_filter_ascends(s: Seq<usize>, keep: spec_fn(usize) -> bool)
    requires
        strictly_ascending(s),
    ensures
        strictly_ascending(s.filter(keep)),
    decreases s.len(),
{
    reveal(Seq::filter);
    if s.len() > 0 {
        let t = s.drop_last();
        lemma_filter_ascends(t, keep);
        let f = t.filter(keep);
        let g = s.filter(keep);
        assert forall|i: int, j: int| 0 <= i < j < g.len() implies g[i] < g[j] by {
            if j == f.len() {
                t.lemma_filter_contains_rev(keep, f[i]);
                let k = choose|k: int| 0 <= k < t.len() && t[k] == f[i];
                assert(s[k] == f[i]);
            }
        }
    }
}

} // verus!
