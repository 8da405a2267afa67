//! The hierarchical container tree: each container names its parent
//! ("master"), carries its child-id set ("slaves"), its contained-item
//! id set, and a bounding box of four corner tokens.  Root containers
//! carry a sentinel parent id that no row bears.

use vstd::prelude::*;

use crate::codec::IdSet;
use crate::codec::valid_id;
use crate::codec::wf_idset_view;
use crate::errors::Error;
use crate::strings::str_eq;

verus! {

/// One container row, in mathematical form.
pub struct ContainerV {
    pub id: Seq<char>,
    pub master: Seq<char>,
    pub name: Seq<char>,
    pub image_type: Seq<char>,
    pub slaves: Seq<Seq<char>>,
    pub corners: (Seq<char>, Seq<char>, Seq<char>, Seq<char>),
    pub contained_items: Seq<Seq<char>>,
}

/// One container row.
pub struct Container {
    pub id: String,
    pub master: String,
    pub name: String,
    pub image_type: String,
    pub slaves: IdSet,
    pub corners: crate::codec::Corners,
    pub contained_items: IdSet,
}

pub open spec fn container_v(c: &Container) -> ContainerV {
    ContainerV {
        id: c.id@,
        master: c.master@,
        name: c.name@,
        image_type: c.image_type@,
        slaves: c.slaves@,
        corners: c.corners.view4(),
        contained_items: c.contained_items@,
    }
}

impl Container {
    /// Well-formed: a valid id, duplicate-free valid member sets.
    pub open spec fn wf(&self) -> bool {
        &&& valid_id(self.id@)
        &&& wf_idset_view(self.slaves@)
        &&& wf_idset_view(self.contained_items@)
    }

    /// A field-for-field copy.
    pub fn duplicate(&self) -> (r: Container)
        ensures
            container_v(&r) == container_v(self),
            r.wf() == self.wf(),
    {
        Container {
            id: self.id.clone(),
            master: self.master.clone(),
            name: self.name.clone(),
            image_type: self.image_type.clone(),
            slaves: self.slaves.duplicate(),
            corners: self.corners.duplicate(),
            contained_items: self.contained_items.duplicate(),
        }
    }
}

/// Inserting into an id set, without duplicates.
pub open spec fn insert_id(s: Seq<Seq<char>>, id: Seq<char>) -> Seq<Seq<char>> {
    if s.contains(id) {
        s
    } else {
        s + seq![id]
    }
}

/// The position of the container with that id, or -1.
pub open spec fn find_container(rows: Seq<ContainerV>, id: Seq<char>) -> int
    decreases rows.len(),
{
    if rows.len() == 0 {
        -1
    } else if rows[0].id == id {
        0
    } else {
        let r = find_container(rows.drop_first(), id);
        if r == -1 {
            -1
        } else {
            1 + r
        }
    }
}

pub proof fn lemma_find_container_range(rows: Seq<ContainerV>, id: Seq<char>)
    ensures
        find_container(rows, id) == -1 || (0 <= find_container(rows, id) < rows.len()
            && rows[find_container(rows, id)].id == id),
    decreases rows.len(),
{
    if rows.len() == 0 {
    } else if rows[0].id == id {
    } else {
        lemma_find_container_range(rows.drop_first(), id);
    }
}

pub proof fn lemma_find_container_at(rows: Seq<ContainerV>, id: Seq<char>, k: int)
    requires
        0 <= k <= rows.len(),
        forall|i: int| 0 <= i < k ==> (#[trigger] rows[i]).id != id,
        k == rows.len() || rows[k].id == id,
    ensures
        find_container(rows, id) == if k == rows.len() {
            -1
        } else {
            k
        },
    decreases rows.len(),
{
    if rows.len() == 0 {
    } else if k == 0 {
    } else {
        assert(rows[0].id != id);
        assert forall|i: int| 0 <= i < k - 1 implies (#[trigger] rows.drop_first()[i]).id != id by {
            assert(rows.drop_first()[i] == rows[i + 1]);
        }
        lemma_find_container_at(rows.drop_first(), id, k - 1);
    }
}

/// The table after deleting `target`: the target's row and its direct
/// children go away, and the target's id leaves its parent's child set.
/// Items contained in the removed containers are not touched.
pub open spec fn spec_delete_rows(rows: Seq<ContainerV>, target: ContainerV) -> Seq<ContainerV>
    decreases rows.len(),
{
    if rows.len() == 0 {
        Seq::empty()
    } else {
        let rest = spec_delete_rows(rows.drop_first(), target);
        let r = rows[0];
        if r.id == target.id || target.slaves.contains(r.id) {
            rest
        } else if r.id == target.master {
            seq![ContainerV { slaves: r.slaves.remove_value(target.id), ..r }] + rest
        } else {
            seq![r] + rest
        }
    }
}

/// `spec_delete_rows` over a table extended at the back.
pub proof fn lemma_delete_rows_snoc(rows: Seq<ContainerV>, r: ContainerV, target: ContainerV)
    ensures
        spec_delete_rows(rows + seq![r], target) == spec_delete_rows(rows, target) + (if r.id
            == target.id || target.slaves.contains(r.id) {
            Seq::<ContainerV>::empty()
        } else if r.id == target.master {
            seq![ContainerV { slaves: r.slaves.remove_value(target.id), ..r }]
        } else {
            seq![r]
        }),
    decreases rows.len(),
{
    let ext = rows + seq![r];
    if rows.len() == 0 {
        assert(ext =~= seq![r]);
        assert(seq![r].drop_first() =~= Seq::<ContainerV>::empty());
        assert(spec_delete_rows(seq![r].drop_first(), target) == Seq::<ContainerV>::empty());
        assert(spec_delete_rows(rows, target) == Seq::<ContainerV>::empty());
        assert(spec_delete_rows(ext, target) =~= spec_delete_rows(rows, target) + (if r.id
            == target.id || target.slaves.contains(r.id) {
            Seq::<ContainerV>::empty()
        } else if r.id == target.master {
            seq![ContainerV { slaves: r.slaves.remove_value(target.id), ..r }]
        } else {
            seq![r]
        }));
    } else {
        assert(ext.drop_first() =~= rows.drop_first() + seq![r]);
        lemma_delete_rows_snoc(rows.drop_first(), r, target);
        assert(ext[0] == rows[0]);
        assert(spec_delete_rows(ext, target) =~= spec_delete_rows(rows, target) + (if r.id
            == target.id || target.slaves.contains(r.id) {
            Seq::<ContainerV>::empty()
        } else if r.id == target.master {
            seq![ContainerV { slaves: r.slaves.remove_value(target.id), ..r }]
        } else {
            seq![r]
        }));
    }
}

/// The children of a parent: the rows whose id stands in `slaves`, in
/// table order.
pub open spec fn spec_children(rows: Seq<ContainerV>, slaves: Seq<Seq<char>>) -> Seq<ContainerV>
    decreases rows.len(),
{
    if rows.len() == 0 {
        Seq::empty()
    } else {
        let rest = spec_children(rows.drop_first(), slaves);
        if slaves.contains(rows[0].id) {
            seq![rows[0]] + rest
        } else {
            rest
        }
    }
}

pub proof fn lemma_children_snoc(rows: Seq<ContainerV>, r: ContainerV, slaves: Seq<Seq<char>>)
    ensures
        spec_children(rows + seq![r], slaves) == spec_children(rows, slaves) + (if slaves.contains(
            r.id,
        ) {
            seq![r]
        } else {
            Seq::<ContainerV>::empty()
        }),
    decreases rows.len(),
{
    let ext = rows + seq![r];
    if rows.len() == 0 {
        assert(ext =~= seq![r]);
        assert(seq![r].drop_first() =~= Seq::<ContainerV>::empty());
        assert(spec_children(seq![r].drop_first(), slaves) == Seq::<ContainerV>::empty());
        assert(spec_children(ext, slaves) =~= spec_children(rows, slaves) + (if slaves.contains(
            r.id,
        ) {
            seq![r]
        } else {
            Seq::<ContainerV>::empty()
        }));
    } else {
        assert(ext.drop_first() =~= rows.drop_first() + seq![r]);
        lemma_children_snoc(rows.drop_first(), r, slaves);
        assert(ext[0] == rows[0]);
        assert(spec_children(ext, slaves) =~= spec_children(rows, slaves) + (if slaves.contains(
            r.id,
        ) {
            seq![r]
        } else {
            Seq::<ContainerV>::empty()
        }));
    }
}

/// The first container whose contained-item set holds the item, or -1.
pub open spec fn find_holding(rows: Seq<ContainerV>, item: Seq<char>) -> int
    decreases rows.len(),
{
    if rows.len() == 0 {
        -1
    } else if rows[0].contained_items.contains(item) {
        0
    } else {
        let r = find_holding(rows.drop_first(), item);
        if r == -1 {
            -1
        } else {
            1 + r
        }
    }
}

/// The first container whose child set holds the container id, or -1.
pub open spec fn find_parent_of(rows: Seq<ContainerV>, cid: Seq<char>) -> int
    decreases rows.len(),
{
    if rows.len() == 0 {
        -1
    } else if rows[0].slaves.contains(cid) {
        0
    } else {
        let r = find_parent_of(rows.drop_first(), cid);
        if r == -1 {
            -1
        } else {
            1 + r
        }
    }
}

pub proof fn lemma_find_holding_at(rows: Seq<ContainerV>, item: Seq<char>, k: int)
    requires
        0 <= k <= rows.len(),
        forall|i: int| 0 <= i < k ==> !(#[trigger] rows[i]).contained_items.contains(item),
        k == rows.len() || rows[k].contained_items.contains(item),
    ensures
        find_holding(rows, item) == if k == rows.len() {
            -1
        } else {
            k
        },
    decreases rows.len(),
{
    if rows.len() == 0 {
    } else if k == 0 {
    } else {
        assert(!rows[0].contained_items.contains(item));
        assert forall|i: int|
            0 <= i < k - 1 implies !(#[trigger] rows.drop_first()[i]).contained_items.contains(
            item,
        ) by {
            assert(rows.drop_first()[i] == rows[i + 1]);
        }
        lemma_find_holding_at(rows.drop_first(), item, k - 1);
    }
}

pub proof fn lemma_find_parent_of_at(rows: Seq<ContainerV>, cid: Seq<char>, k: int)
    requires
        0 <= k <= rows.len(),
        forall|i: int| 0 <= i < k ==> !(#[trigger] rows[i]).slaves.contains(cid),
        k == rows.len() || rows[k].slaves.contains(cid),
    ensures
        find_parent_of(rows, cid) == if k == rows.len() {
            -1
        } else {
            k
        },
    decreases rows.len(),
{
    if rows.len() == 0 {
    } else if k == 0 {
    } else {
        assert(!rows[0].slaves.contains(cid));
        assert forall|i: int| 0 <= i < k - 1 implies !(
        #[trigger] rows.drop_first()[i]).slaves.contains(cid) by {
            assert(rows.drop_first()[i] == rows[i + 1]);
        }
        lemma_find_parent_of_at(rows.drop_first(), cid, k - 1);
    }
}

/// The view of a container table.
pub open spec fn rows_view(rows: Seq<Container>) -> Seq<ContainerV> {
    Seq::new(rows.len(), |i: int| container_v(&rows[i]))
}

/// A well-formed table: unique ids, each row well-formed.
pub open spec fn wf_rows(rows: Seq<ContainerV>) -> bool {
    &&& forall|i: int, j: int|
        0 <= i < j < rows.len() ==> (#[trigger] rows[i]).id != (#[trigger] rows[j]).id
    &&& forall|i: int|
        0 <= i < rows.len() ==> valid_id((#[trigger] rows[i]).id) && wf_idset_view(rows[i].slaves)
            && wf_idset_view(rows[i].contained_items)
}

/// Deletion neither duplicates nor invents ids.
proof fn lemma_delete_rows_wf(rows: Seq<ContainerV>, target: ContainerV)
    requires
        forall|i: int, j: int|
            0 <= i < j < rows.len() ==> (#[trigger] rows[i]).id != (#[trigger] rows[j]).id,
    ensures
        forall|i: int, j: int|
            0 <= i < j < spec_delete_rows(rows, target).len() ==> (#[trigger] spec_delete_rows(
                rows,
                target,
            )[i]).id != (#[trigger] spec_delete_rows(rows, target)[j]).id,
        forall|i: int|
            0 <= i < spec_delete_rows(rows, target).len() ==> exists|w: int|
                0 <= w < rows.len() && (#[trigger] spec_delete_rows(rows, target)[i]).id
                    == rows[w].id,
    decreases rows.len(),
{
    if rows.len() == 0 {
    } else {
        let rest = rows.drop_first();
        assert forall|a: int, b: int| 0 <= a < b < rest.len() implies (#[trigger] rest[a]).id != (
        #[trigger] rest[b]).id by {
            assert(rest[a] == rows[a + 1]);
            assert(rest[b] == rows[b + 1]);
        }
        lemma_delete_rows_wf(rest, target);
        let dr = spec_delete_rows(rows, target);
        let drr = spec_delete_rows(rest, target);
        assert forall|i: int| 0 <= i < drr.len() implies exists|w: int|
            0 <= w < rows.len() && (#[trigger] drr[i]).id == rows[w].id by {
            let w = choose|w: int| 0 <= w < rest.len() && drr[i].id == rest[w].id;
            assert(drr[i].id == rows[w + 1].id);
        }
        let r0 = rows[0];
        if r0.id == target.id || target.slaves.contains(r0.id) {
        } else {
            let head = if r0.id == target.master {
                ContainerV { slaves: r0.slaves.remove_value(target.id), ..r0 }
            } else {
                r0
            };
            assert(dr == seq![head] + drr);
            assert forall|a: int, b: int| 0 <= a < b < dr.len() implies (#[trigger] dr[a]).id != (
            #[trigger] dr[b]).id by {
                if a == 0 {
                    assert(dr[b] == drr[b - 1]);
                    let w = choose|w: int|
                        0 <= w < rest.len() && drr[b - 1].id == rest[w].id;
                    assert(rest[w].id == rows[w + 1].id);
                    assert(rows[0].id != rows[w + 1].id);
                } else {
                    assert(dr[a] == drr[a - 1]);
                    assert(dr[b] == drr[b - 1]);
                }
            }
        }
    }
}

/// The container table of one tenant.
pub struct ContainerStore {
    rows: Vec<Container>,
}

impl View for ContainerStore {
    type V = Seq<ContainerV>;

    closed spec fn view(&self) -> Seq<ContainerV> {
        rows_view(self.rows@)
    }
}

impl ContainerStore {
    /// Well-formed: unique ids, each row well-formed.
    pub open spec fn wf(&self) -> bool {
        wf_rows(self@)
    }

    pub fn new() -> (r: ContainerStore)
        ensures
            r@ =~= Seq::<ContainerV>::empty(),
            r.wf(),
    {
        ContainerStore { rows: Vec::new() }
    }

    pub fn len(&self) -> (n: usize)
        ensures
            n == self@.len(),
    {
        self.rows.len()
    }

    /// The position of the container with this id.
    fn find(&self, id: &String) -> (r: Option<usize>)
        ensures
            match r {
                Some(i) => 0 <= i < self@.len() && find_container(self@, id@) == i as int,
                None => find_container(self@, id@) == -1,
            },
    {
        let n = self.rows.len();
        let mut i: usize = 0;
        while i < n
            invariant
                i <= n,
                n == self.rows.len(),
                self@.len() == n,
                forall|k: int| 0 <= k < i ==> (#[trigger] self@[k]).id != id@,
            decreases n - i,
        {
            if str_eq(self.rows[i].id.as_str(), id.as_str()) {
                proof {
                    assert(self@[i as int].id == id@);
                    lemma_find_container_at(self@, id@, i as int);
                }
                return Some(i);
            }
            i += 1;
        }
        proof {
            lemma_find_container_at(self@, id@, n as int);
        }
        None
    }

    /// A copy of the container with this id.
    pub fn get(&self, id: &String) -> (r: Option<Container>)
        ensures
            match r {
                Some(c) => find_container(self@, id@) >= 0 && container_v(&c) == self@[
                    find_container(self@, id@)],
                None => find_container(self@, id@) == -1,
            },
    {
        match self.find(id) {
            None => None,
            Some(i) => Some(self.rows[i].duplicate()),
        }
    }

    /// Adds a container: its id is appended to its parent's child set
    /// when the parent exists (root containers name a sentinel parent no
    /// row bears), and the row is inserted unless the id is already
    /// taken.
    pub fn add(&mut self, c: Container) -> (r: Result<(), Error>)
        requires
            old(self).wf(),
            c.wf(),
        ensures
            final(self).wf(),
            r is Ok,
            ({
                let p = find_container(old(self)@, c.master@);
                let rows1 = if p >= 0 {
                    old(self)@.update(
                        p,
                        ContainerV {
                            slaves: insert_id(old(self)@[p].slaves, c.id@),
                            ..old(self)@[p]
                        },
                    )
                } else {
                    old(self)@
                };
                final(self)@ == if find_container(old(self)@, c.id@) >= 0 {
                    rows1
                } else {
                    rows1 + seq![container_v(&c)]
                }
            }),
    {
        let ghost before = self@;
        match self.find(&c.master) {
            None => {},
            Some(p) => {
                let mut parent = self.rows.remove(p);
                proof {
                    assert(parent.slaves@ == before[p as int].slaves);
                    assert(wf_idset_view(before[p as int].slaves));
                }
                parent.slaves.insert(c.id.clone());
                self.rows.insert(p, parent);
                proof {
                    assert(self@ =~= before.update(
                        p as int,
                        ContainerV {
                            slaves: insert_id(before[p as int].slaves, c.id@),
                            ..before[p as int]
                        },
                    ));
                    lemma_find_container_range(before, c.master@);
                    assert forall|a: int, b: int|
                        0 <= a < b < self@.len() implies (#[trigger] self@[a]).id != (
                    #[trigger] self@[b]).id by {
                        assert(self@[a].id == before[a].id);
                        assert(self@[b].id == before[b].id);
                    }
                    assert forall|k: int| 0 <= k < self@.len() implies (#[trigger] self@[k]).id
                        == before[k].id by {}
                    lemma_find_same_ids(before, self@, c.id@);
                }
            },
        }
        let ghost rows1 = self@;
        match self.find(&c.id) {
            Some(_) => Ok(()),
            None => {
                let ghost cv = container_v(&c);
                proof {
                    lemma_find_container_range(self@, c.id@);
                }
                self.rows.push(c);
                proof {
                    assert(self@ =~= rows1 + seq![cv]);
                    assert forall|a: int, b: int|
                        0 <= a < b < self@.len() implies (#[trigger] self@[a]).id != (
                    #[trigger] self@[b]).id by {
                        if b == rows1.len() as int {
                            assert(self@[a] == rows1[a]);
                            if rows1[a].id == cv.id {
                                lemma_find_container_at_contains(rows1, cv.id, a);
                            }
                        } else {
                            assert(self@[a] == rows1[a]);
                            assert(self@[b] == rows1[b]);
                        }
                    }
                }
                Ok(())
            },
        }
    }

    /// Replaces the row with the container's id.
    pub fn update(&mut self, c: Container) -> (r: Result<(), Error>)
        requires
            old(self).wf(),
            c.wf(),
        ensures
            final(self).wf(),
            match r {
                Ok(()) => {
                    let i = find_container(old(self)@, c.id@);
                    i >= 0 && final(self)@ == old(self)@.update(i, container_v(&c))
                },
                Err(Error::NotFound) => find_container(old(self)@, c.id@) == -1 && final(self)@
                    == old(self)@,
                Err(_) => false,
            },
    {
        let ghost before = self@;
        match self.find(&c.id) {
            None => Err(Error::NotFound),
            Some(i) => {
                proof {
                    lemma_find_container_range(before, c.id@);
                }
                let ghost cv = container_v(&c);
                self.rows.set(i, c);
                proof {
                    assert(self@ =~= before.update(i as int, cv));
                    assert forall|a: int, b: int|
                        0 <= a < b < self@.len() implies (#[trigger] self@[a]).id != (
                    #[trigger] self@[b]).id by {
                        assert(self@[a].id == before[a].id);
                        assert(self@[b].id == before[b].id);
                    }
                }
                Ok(())
            },
        }
    }

    /// Deletes a container: detaches it from its parent's child set,
    /// removes its direct child rows, and removes the row itself.  The
    /// items the removed containers held are not touched.
    pub fn remove(&mut self, id: &String) -> (r: Result<(), Error>)
        requires
            old(self).wf(),
        ensures
            final(self).wf(),
            match r {
                Ok(()) => {
                    let t = find_container(old(self)@, id@);
                    t >= 0 && final(self)@ == spec_delete_rows(old(self)@, old(self)@[t])
                },
                Err(Error::NotFound) => find_container(old(self)@, id@) == -1 && final(self)@
                    == old(self)@,
                Err(_) => false,
            },
    {
        let ghost before = self@;
        let ti = match self.find(id) {
            None => {
                return Err(Error::NotFound);
            },
            Some(ti) => ti,
        };
        let target = self.rows[ti].duplicate();
        let ghost tv = container_v(&target);
        proof {
            assert(tv == before[ti as int]);
        }
        let n = self.rows.len();
        let mut kept: Vec<Container> = Vec::new();
        let mut i: usize = 0;
        proof {
            assert(before.take(0) =~= Seq::<ContainerV>::empty());
            assert(rows_view(kept@) =~= spec_delete_rows(before.take(0), tv));
        }
        while i < n
            invariant
                i <= n,
                n == self.rows.len(),
                self@ == before,
                before.len() == n,
                wf_rows(before),
                tv == before[ti as int],
                target.wf(),
                container_v(&target) == tv,
                rows_view(kept@) == spec_delete_rows(before.take(i as int), tv),
            decreases n - i,
        {
            let ghost keptv = rows_view(kept@);
            proof {
                assert(before.take(i + 1) =~= before.take(i as int) + seq![before[i as int]]);
                lemma_delete_rows_snoc(before.take(i as int), before[i as int], tv);
            }
            let drop_row = str_eq(self.rows[i].id.as_str(), target.id.as_str())
                || target.slaves.contains(&self.rows[i].id);
            if !drop_row {
                let mut row = self.rows[i].duplicate();
                proof {
                    assert(container_v(&row) == before[i as int]);
                    assert(wf_idset_view(before[i as int].slaves));
                }
                if str_eq(row.id.as_str(), target.master.as_str()) {
                    row.slaves.remove(&target.id);
                    kept.push(row);
                    proof {
                        assert(rows_view(kept@) =~= keptv + seq![
                            ContainerV {
                                slaves: before[i as int].slaves.remove_value(tv.id),
                                ..before[i as int]
                            },
                        ]);
                    }
                } else {
                    kept.push(row);
                    proof {
                        assert(rows_view(kept@) =~= keptv + seq![before[i as int]]);
                    }
                }
            }
            i += 1;
        }
        proof {
            assert(before.take(n as int) =~= before);
        }
        self.rows = kept;
        proof {
            assert(self@ == spec_delete_rows(before, tv));
            lemma_delete_rows_wf(before, tv);
            lemma_delete_rows_all_wf(before, tv);
        }
        Ok(())
    }

    /// Copies of the direct children of a parent: the rows whose id
    /// stands in its child set, in table order.
    pub fn get_children(&self, parent_id: &String) -> (r: Result<Vec<Container>, Error>)
        requires
            self.wf(),
        ensures
            match r {
                Ok(children) => {
                    let p = find_container(self@, parent_id@);
                    p >= 0 && rows_view(children@) == spec_children(self@, self@[p].slaves)
                },
                Err(Error::NotFound) => find_container(self@, parent_id@) == -1,
                Err(_) => false,
            },
    {
        let p = match self.find(parent_id) {
            None => {
                return Err(Error::NotFound);
            },
            Some(p) => p,
        };
        let slaves = self.rows[p].slaves.duplicate();
        let ghost sl = self@[p as int].slaves;
        let n = self.rows.len();
        let mut out: Vec<Container> = Vec::new();
        let mut i: usize = 0;
        proof {
            assert(self@.take(0) =~= Seq::<ContainerV>::empty());
            assert(rows_view(out@) =~= spec_children(self@.take(0), sl));
        }
        while i < n
            invariant
                i <= n,
                n == self.rows.len(),
                self@.len() == n,
                slaves@ == sl,
                rows_view(out@) == spec_children(self@.take(i as int), sl),
            decreases n - i,
        {
            let ghost outv = rows_view(out@);
            proof {
                assert(self@.take(i + 1) =~= self@.take(i as int) + seq![self@[i as int]]);
                lemma_children_snoc(self@.take(i as int), self@[i as int], sl);
            }
            if slaves.contains(&self.rows[i].id) {
                out.push(self.rows[i].duplicate());
                proof {
                    assert(rows_view(out@) =~= outv + seq![self@[i as int]]);
                }
            }
            i += 1;
        }
        proof {
            assert(self@.take(n as int) =~= self@);
        }
        Ok(out)
    }

    /// The reverse lookup: the container holding the item, and that
    /// container's own parent; none when the item is unassigned or the
    /// holder has no parent row.
    pub fn locate(&self, item_id: &String) -> (r: Option<(Container, Container)>)
        ensures
            match r {
                Some(pair) => {
                    let h = find_holding(self@, item_id@);
                    let p = find_parent_of(self@, self@[h].id);
                    &&& h >= 0
                    &&& container_v(&pair.0) == self@[h]
                    &&& p >= 0
                    &&& container_v(&pair.1) == self@[p]
                },
                None => {
                    let h = find_holding(self@, item_id@);
                    h == -1 || find_parent_of(self@, self@[h].id) == -1
                },
            },
    {
        let n = self.rows.len();
        let mut h: usize = 0;
        while h < n
            invariant
                h <= n,
                n == self.rows.len(),
                self@.len() == n,
                forall|k: int| 0 <= k < h ==> !(#[trigger] self@[k]).contained_items.contains(
                    item_id@,
                ),
            decreases n - h,
        {
            if self.rows[h].contained_items.contains(item_id) {
                proof {
                    lemma_find_holding_at(self@, item_id@, h as int);
                }
                let holder = self.rows[h].duplicate();
                // now the holder's own parent, by child-set membership
                let mut p: usize = 0;
                while p < n
                    invariant
                        p <= n,
                        n == self.rows.len(),
                        self@.len() == n,
                        container_v(&holder) == self@[h as int],
                        h < n,
                        find_holding(self@, item_id@) == h as int,
                        forall|k: int| 0 <= k < p ==> !(#[trigger] self@[k]).slaves.contains(
                            holder.id@,
                        ),
                    decreases n - p,
                {
                    if self.rows[p].slaves.contains(&holder.id) {
                        proof {
                            lemma_find_parent_of_at(self@, holder.id@, p as int);
                        }
                        let parent = self.rows[p].duplicate();
                        return Some((holder, parent));
                    }
                    p += 1;
                }
                proof {
                    lemma_find_parent_of_at(self@, holder.id@, n as int);
                }
                return None;
            }
            h += 1;
        }
        proof {
            lemma_find_holding_at(self@, item_id@, n as int);
        }
        None
    }

    /// Appends an item id to a container's contained-item set, as an
    /// item insert does.
    pub fn attach_item(&mut self, container_id: &String, item_id: &String) -> (r: Result<
        (),
        Error,
    >)
        requires
            old(self).wf(),
            valid_id(item_id@),
        ensures
            final(self).wf(),
            match r {
                Ok(()) => {
                    let i = find_container(old(self)@, container_id@);
                    i >= 0 && final(self)@ == old(self)@.update(
                        i,
                        ContainerV {
                            contained_items: insert_id(old(self)@[i].contained_items, item_id@),
                            ..old(self)@[i]
                        },
                    )
                },
                Err(Error::NotFound) => find_container(old(self)@, container_id@) == -1
                    && final(self)@ == old(self)@,
                Err(_) => false,
            },
    {
        let ghost before = self@;
        match self.find(container_id) {
            None => Err(Error::NotFound),
            Some(i) => {
                let mut row = self.rows.remove(i);
                proof {
                    assert(row.contained_items@ == before[i as int].contained_items);
                    assert(wf_idset_view(before[i as int].contained_items));
                }
                row.contained_items.insert(item_id.clone());
                self.rows.insert(i, row);
                proof {
                    assert(self@ =~= before.update(
                        i as int,
                        ContainerV {
                            contained_items: insert_id(before[i as int].contained_items, item_id@),
                            ..before[i as int]
                        },
                    ));
                    assert forall|a: int, b: int|
                        0 <= a < b < self@.len() implies (#[trigger] self@[a]).id != (
                    #[trigger] self@[b]).id by {
                        assert(self@[a].id == before[a].id);
                        assert(self@[b].id == before[b].id);
                    }
                }
                Ok(())
            },
        }
    }

    /// Detaches an item id from a container's contained-item set, as an
    /// item delete always does.
    pub fn detach_item(&mut self, container_id: &String, item_id: &String) -> (r: Result<
        (),
        Error,
    >)
        requires
            old(self).wf(),
        ensures
            final(self).wf(),
            match r {
                Ok(()) => {
                    let i = find_container(old(self)@, container_id@);
                    &&& i >= 0
                    &&& final(self)@ == old(self)@.update(
                        i,
                        ContainerV {
                            contained_items: old(self)@[i].contained_items.remove_value(item_id@),
                            ..old(self)@[i]
                        },
                    )
                    &&& !final(self)@[i].contained_items.contains(item_id@)
                },
                Err(Error::NotFound) => find_container(old(self)@, container_id@) == -1
                    && final(self)@ == old(self)@,
                Err(_) => false,
            },
    {
        let ghost before = self@;
        match self.find(container_id) {
            None => Err(Error::NotFound),
            Some(i) => {
                let mut row = self.rows.remove(i);
                proof {
                    assert(row.contained_items@ == before[i as int].contained_items);
                    assert(wf_idset_view(before[i as int].contained_items));
                }
                row.contained_items.remove(item_id);
                self.rows.insert(i, row);
                proof {
                    assert(self@ =~= before.update(
                        i as int,
                        ContainerV {
                            contained_items: before[i as int].contained_items.remove_value(
                                item_id@,
                            ),
                            ..before[i as int]
                        },
                    ));
                    assert forall|a: int, b: int|
                        0 <= a < b < self@.len() implies (#[trigger] self@[a]).id != (
                    #[trigger] self@[b]).id by {
                        assert(self@[a].id == before[a].id);
                        assert(self@[b].id == before[b].id);
                    }
                }
                Ok(())
            },
        }
    }
}

/// Whether some container holds the item.
pub open spec fn item_in_any(rows: Seq<ContainerV>, id: Seq<char>) -> bool {
    exists|k: int| 0 <= k < rows.len() && (#[trigger] rows[k]).contained_items.contains(id)
}

/// The ids with no container, in input order.
pub open spec fn spec_unassigned(ids: Seq<Seq<char>>, rows: Seq<ContainerV>) -> Seq<Seq<char>>
    decreases ids.len(),
{
    if ids.len() == 0 {
        Seq::empty()
    } else {
        let rest = spec_unassigned(ids.drop_first(), rows);
        if item_in_any(rows, ids[0]) {
            rest
        } else {
            seq![ids[0]] + rest
        }
    }
}

pub proof fn lemma_unassigned_snoc(ids: Seq<Seq<char>>, id: Seq<char>, rows: Seq<ContainerV>)
    ensures
        spec_unassigned(ids + seq![id], rows) == spec_unassigned(ids, rows) + (if item_in_any(
            rows,
            id,
        ) {
            Seq::<Seq<char>>::empty()
        } else {
            seq![id]
        }),
    decreases ids.len(),
{
    let ext = ids + seq![id];
    if ids.len() == 0 {
        assert(ext =~= seq![id]);
        assert(seq![id].drop_first() =~= Seq::<Seq<char>>::empty());
        assert(spec_unassigned(seq![id].drop_first(), rows) == Seq::<Seq<char>>::empty());
        assert(spec_unassigned(ids, rows) == Seq::<Seq<char>>::empty());
        assert(spec_unassigned(ext, rows) =~= spec_unassigned(ids, rows) + (if item_in_any(
            rows,
            id,
        ) {
            Seq::<Seq<char>>::empty()
        } else {
            seq![id]
        }));
    } else {
        assert(ext.drop_first() =~= ids.drop_first() + seq![id]);
        lemma_unassigned_snoc(ids.drop_first(), id, rows);
        assert(ext[0] == ids[0]);
        assert(spec_unassigned(ext, rows) =~= spec_unassigned(ids, rows) + (if item_in_any(
            rows,
            id,
        ) {
            Seq::<Seq<char>>::empty()
        } else {
            seq![id]
        }));
    }
}

impl ContainerStore {
    /// Of all known item ids, the ones no container holds, in input
    /// order: the pool an existing item can be adopted from.
    pub fn unassigned_items(&self, all_ids: &Vec<String>) -> (r: Vec<String>)
        ensures
            r.deep_view() == spec_unassigned(all_ids.deep_view(), self@),
    {
        let ghost idsv = all_ids.deep_view();
        let n = all_ids.len();
        let rn = self.rows.len();
        let mut out: Vec<String> = Vec::new();
        let mut i: usize = 0;
        proof {
            assert(idsv.take(0) =~= Seq::<Seq<char>>::empty());
            assert(out.deep_view() =~= spec_unassigned(idsv.take(0), self@));
        }
        while i < n
            invariant
                i <= n,
                n == all_ids.len(),
                rn == self.rows.len(),
                self@.len() == rn,
                idsv == all_ids.deep_view(),
                out.deep_view() == spec_unassigned(idsv.take(i as int), self@),
            decreases n - i,
        {
            let ghost outv = out.deep_view();
            proof {
                assert(idsv.take(i + 1) =~= idsv.take(i as int) + seq![idsv[i as int]]);
                lemma_unassigned_snoc(idsv.take(i as int), idsv[i as int], self@);
                assert(idsv[i as int] == all_ids@[i as int]@);
            }
            let mut found = false;
            let mut j: usize = 0;
            while j < rn && !found
                invariant
                    j <= rn,
                    rn == self.rows.len(),
                    self@.len() == rn,
                    idsv == all_ids.deep_view(),
                    i < n,
                    n == all_ids.len(),
                    idsv[i as int] == all_ids@[i as int]@,
                    found ==> item_in_any(self@, idsv[i as int]),
                    !found ==> forall|k: int|
                        0 <= k < j ==> !(#[trigger] self@[k]).contained_items.contains(
                            idsv[i as int],
                        ),
                decreases rn - j + (if found {
                    0int
                } else {
                    1int
                }),
            {
                if self.rows[j].contained_items.contains(&all_ids[i]) {
                    found = true;
                    proof {
                        assert(self@[j as int].contained_items.contains(idsv[i as int]));
                    }
                } else {
                    j += 1;
                }
            }
            if !found {
                out.push(all_ids[i].clone());
                proof {
                    assert(!item_in_any(self@, idsv[i as int]));
                    assert(out.deep_view() =~= outv + seq![idsv[i as int]]);
                }
            }
            i += 1;
        }
        proof {
            assert(idsv.take(n as int) =~= idsv);
        }
        out
    }
}

/// If some position bears the id, `find_container` succeeds at or
/// before it.
pub proof fn lemma_find_container_at_contains(rows: Seq<ContainerV>, id: Seq<char>, w: int)
    requires
        0 <= w < rows.len(),
        rows[w].id == id,
    ensures
        0 <= find_container(rows, id) <= w,
    decreases rows.len(),
{
    if rows[0].id == id {
    } else {
        assert(rows.drop_first()[w - 1] == rows[w]);
        lemma_find_container_at_contains(rows.drop_first(), id, w - 1);
    }
}

/// Two tables with pairwise equal ids agree on `find_container`.
proof fn lemma_find_same_ids(a: Seq<ContainerV>, b: Seq<ContainerV>, id: Seq<char>)
    requires
        a.len() == b.len(),
        forall|i: int| 0 <= i < a.len() ==> (#[trigger] a[i]).id == (#[trigger] b[i]).id,
    ensures
        find_container(a, id) == find_container(b, id),
    decreases a.len(),
{
    if a.len() == 0 {
    } else {
        assert(a[0].id == b[0].id);
        assert forall|i: int| 0 <= i < a.len() - 1 implies (#[trigger] a.drop_first()[i]).id == (
        #[trigger] b.drop_first()[i]).id by {
            assert(a.drop_first()[i] == a[i + 1]);
            assert(b.drop_first()[i] == b[i + 1]);
        }
        lemma_find_same_ids(a.drop_first(), b.drop_first(), id);
    }
}

/// Deletion keeps every surviving row well-formed.
proof fn lemma_delete_rows_all_wf(rows: Seq<ContainerV>, target: ContainerV)
    requires
        forall|i: int|
            0 <= i < rows.len() ==> valid_id((#[trigger] rows[i]).id) && wf_idset_view(
                rows[i].slaves,
            ) && wf_idset_view(rows[i].contained_items),
    ensures
        forall|i: int|
            0 <= i < spec_delete_rows(rows, target).len() ==> valid_id(
                (#[trigger] spec_delete_rows(rows, target)[i]).id,
            ) && wf_idset_view(spec_delete_rows(rows, target)[i].slaves) && wf_idset_view(
                spec_delete_rows(rows, target)[i].contained_items,
            ),
    decreases rows.len(),
{
    if rows.len() == 0 {
    } else {
        let rest = rows.drop_first();
        assert forall|i: int|
            0 <= i < rest.len() implies valid_id((#[trigger] rest[i]).id) && wf_idset_view(
            rest[i].slaves,
        ) && wf_idset_view(rest[i].contained_items) by {
            assert(rest[i] == rows[i + 1]);
        }
        lemma_delete_rows_all_wf(rest, target);
        let dr = spec_delete_rows(rows, target);
        let drr = spec_delete_rows(rest, target);
        let r0 = rows[0];
        if r0.id == target.id || target.slaves.contains(r0.id) {
            assert forall|i: int|
                0 <= i < dr.len() implies valid_id((#[trigger] dr[i]).id) && wf_idset_view(
                dr[i].slaves,
            ) && wf_idset_view(dr[i].contained_items) by {
                assert(dr[i] == drr[i]);
            }
        } else {
            let head = if r0.id == target.master {
                ContainerV { slaves: r0.slaves.remove_value(target.id), ..r0 }
            } else {
                r0
            };
            if r0.id == target.master {
                lemma_remove_value_keeps_wf(r0.slaves, target.id);
            }
            assert(dr == seq![head] + drr);
            assert forall|i: int|
                0 <= i < dr.len() implies valid_id((#[trigger] dr[i]).id) && wf_idset_view(
                dr[i].slaves,
            ) && wf_idset_view(dr[i].contained_items) by {
                if i == 0 {
                    assert(dr[0] == head);
                } else {
                    assert(dr[i] == drr[i - 1]);
                }
            }
        }
    }
}

/// Removing a value keeps an id-set view well-formed.
proof fn lemma_remove_value_keeps_wf(s: Seq<Seq<char>>, id: Seq<char>)
    requires
        wf_idset_view(s),
    ensures
        wf_idset_view(s.remove_value(id)),
{
    s.index_of_first_ensures(id);
    if s.contains(id) {
        let i = s.index_of_first(id)->Some_0;
        let r = s.remove(i);
        assert forall|k: int| 0 <= k < r.len() implies crate::codec::valid_id(#[trigger] r[k]) by {
            if k < i {
                assert(r[k] == s[k]);
            } else {
                assert(r[k] == s[k + 1]);
            }
        }
        assert forall|a: int, b: int| 0 <= a < b < r.len() implies r[a] != r[b] by {
            let a2: int = if a < i {
                a
            } else {
                a + 1
            };
            let b2: int = if b < i {
                b
            } else {
                b + 1
            };
            assert(r[a] == s[a2]);
            assert(r[b] == s[b2]);
        }
    }
}

} // verus!
