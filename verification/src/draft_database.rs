//! The read-only item database: items, draft sets and the set catalogue.
//!
//! The directory scan and HTML parsing that fill it live at the edge of the
//! program; this module holds the deduplication structure and the queries,
//! with checked constructors that keep its invariants.

use vstd::prelude::*;

use crate::draft_engine::DraftItemId;

verus! {

/// The abstract value of a [`DraftItem`]: its three rendered text forms.
pub struct ItemModel {
    pub template: Seq<char>,
    pub raw: Seq<char>,
    pub stats: Seq<char>,
}

/// One draftable item: its HTML template, plain-text form and stats HTML.
pub struct DraftItem {
    raw_html: String,
    simple_text: String,
    stats_html: String,
}

impl View for DraftItem {
    type V = ItemModel;

    closed spec fn view(&self) -> ItemModel {
        ItemModel { template: self.raw_html@, raw: self.simple_text@, stats: self.stats_html@ }
    }
}

impl DraftItem {
    /// Bundles the three rendered forms of one item.
    pub fn new(raw_html: String, simple_text: String, stats_html: String) -> (item: DraftItem)
        ensures
            item@.template == raw_html@,
            item@.raw == simple_text@,
            item@.stats == stats_html@,
    {
        DraftItem { raw_html, simple_text, stats_html }
    }

    /// The item's HTML template.
    pub fn get_template(&self) -> (r: &String)
        ensures
            r@ == self@.template,
    {
        &self.raw_html
    }

    /// The item's plain-text form.
    pub fn get_raw(&self) -> (r: &String)
        ensures
            r@ == self@.raw,
    {
        &self.simple_text
    }

    /// The item's stats HTML.
    pub fn get_stats(&self) -> (r: &String)
        ensures
            r@ == self@.stats,
    {
        &self.stats_html
    }
}

/// The abstract value of a [`DraftSet`]: the item catalogue and the
/// name-deduplicated grouping of item ids.
pub struct SetModel {
    /// Item ids in insertion order, paired with each item's value.
    pub items: Seq<(DraftItemId, ItemModel)>,
    /// Deduplicated plain-text names, each with the ids that share it.
    pub groups: Seq<(Seq<char>, Seq<DraftItemId>)>,
}

impl SetModel {
    /// The ids of the item catalogue, in insertion order.
    pub open spec fn item_ids(self) -> Seq<DraftItemId> {
        self.items.map_values(|p: (DraftItemId, ItemModel)| p.0)
    }

    /// The deduplicated names, in first-seen order.
    pub open spec fn group_names(self) -> Seq<Seq<char>> {
        self.groups.map_values(|p: (Seq<char>, Seq<DraftItemId>)| p.0)
    }

    /// Whether the catalogue holds an item under `id`.
    pub open spec fn has_item(self, id: DraftItemId) -> bool {
        self.item_ids().contains(id)
    }

    /// The well-formedness invariant of a draft set: ids are unique and
    /// assigned in order, names are unique, the groups are nonempty and
    /// pairwise disjoint, and every grouped id resolves in the catalogue.
    pub open spec fn wf(self) -> bool {
        &&& forall|i: int|
            0 <= i < self.items.len() ==> (#[trigger] self.items[i]).0 == i as DraftItemId
        &&& self.items.len() <= 0x1000_0000
        &&& self.group_names().no_duplicates()
        &&& forall|g: int|
            0 <= g < self.groups.len() ==> (#[trigger] self.groups[g]).1.len() > 0
        &&& forall|g: int, j: int|
            0 <= g < self.groups.len() && 0 <= j < (#[trigger] self.groups[g]).1.len()
                ==> 0 <= #[trigger] self.groups[g].1[j] < self.items.len()
        &&& forall|g1: int, j1: int, g2: int, j2: int|
            0 <= g1 < self.groups.len() && 0 <= j1 < self.groups[g1].1.len() && 0 <= g2
                < self.groups.len() && 0 <= j2 < self.groups[g2].1.len() && (g1 != g2 || j1
                != j2) ==> #[trigger] self.groups[g1].1[j1] != #[trigger] self.groups[g2].1[j2]
    }
}

/// A deduplicated catalogue of draftable items under one set name.
pub struct DraftSet {
    items: Vec<DraftItem>,
    groups: Vec<(String, Vec<DraftItemId>)>,
}

impl View for DraftSet {
    type V = SetModel;

    closed spec fn view(&self) -> SetModel {
        SetModel {
            items: Seq::new(
                self.items@.len(),
                |i: int| (i as DraftItemId, self.items@[i]@),
            ),
            groups: Seq::new(
                self.groups@.len(),
                |g: int| (self.groups@[g].0@, self.groups@[g].1@),
            ),
        }
    }
}

impl DraftSet {
    /// An empty draft set, to be filled one item at a time.
    pub fn new() -> (s: DraftSet)
        ensures
            s@.wf(),
            s@.items.len() == 0,
            s@.groups.len() == 0,
    {
        let s = DraftSet { items: Vec::new(), groups: Vec::new() };
        proof {
            assert(s@.items =~= Seq::<(DraftItemId, ItemModel)>::empty());
            assert(s@.groups =~= Seq::<(Seq<char>, Seq<DraftItemId>)>::empty());
            assert(s@.group_names() =~= Seq::<Seq<char>>::empty());
        }
        s
    }

    /// Adds one item under its deduplicated name, assigning it the next id.
    ///
    /// The id is the item's position in insertion order; the id is appended to
    /// the group of `dedup_key`, which is created if no item carried that name
    /// before.
    pub fn add_item(&mut self, dedup_key: String, item: DraftItem) -> (id: DraftItemId)
        requires
            old(self)@.wf(),
            old(self)@.items.len() < 0x1000_0000,
        ensures
            final(self)@.wf(),
            id == old(self)@.items.len(),
            final(self)@.items == old(self)@.items.push((id, item@)),
            final(self)@.group_names().contains(dedup_key@),
    {
        let id: DraftItemId = self.items.len() as DraftItemId;
        let ghost item_v = item@;
        self.items.push(item);
        proof {
            assert(self@.items =~= old(self)@.items.push((id, item_v)));
        }
        let ghost old_groups = self.groups@;
        let mut g: usize = 0;
        let n_groups: usize = self.groups.len();
        while g < n_groups
            invariant
                0 <= g <= n_groups,
                n_groups == self.groups@.len(),
                forall|k: int| 0 <= k < g ==> (#[trigger] self.groups@[k]).0@ != dedup_key@,
                self.groups@ == old_groups,
                self@.items == old(self)@.items.push((id, item_v)),
                self@.groups == old(self)@.groups,
                id == old(self)@.items.len(),
                old(self)@.wf(),
                old(self)@.items.len() < 0x1000_0000,
                item_v == item@,
            decreases n_groups - g,
        {
            if self.groups[g].0.eq(&dedup_key) {
                self.groups[g].1.push(id);
                proof {
                    let se = final_set_model_after_group_push(
                        old(self)@,
                        g as int,
                        id,
                        item_v,
                    );
                    assert(self@.items =~= old(self)@.items.push((id, item_v)));
                    assert(self@.groups =~= old(self)@.groups.update(
                        g as int,
                        (
                            old(self)@.groups[g as int].0,
                            old(self)@.groups[g as int].1.push(id),
                        ),
                    ));
                    assert(self@.group_names() =~= old(self)@.group_names());
                    assert(self@.group_names()[g as int] == dedup_key@);
                    lemma_wf_after_group_push(old(self)@, g as int, id, item_v);
                    assert(self@ == se);
                }
                return id;
            }
            g += 1;
        }
        let mut ids: Vec<DraftItemId> = Vec::new();
        ids.push(id);
        self.groups.push((dedup_key, ids));
        proof {
            assert(self@.items =~= old(self)@.items.push((id, item_v)));
            assert(self@.groups =~= old(self)@.groups.push((dedup_key@, seq![id])));
            assert(self@.group_names() =~= old(self)@.group_names().push(dedup_key@));
            lemma_wf_after_new_group(old(self)@, id, item_v, dedup_key@);
            assert(self@.group_names().last() == dedup_key@);
        }
        id
    }

    /// Looks an item up by its id; answers exactly when the id is in range.
    pub fn get_item_by_id(&self, id: &DraftItemId) -> (r: Option<&DraftItem>)
        requires
            self@.wf(),
        ensures
            match r {
                Some(item) => {
                    &&& *id < self@.items.len()
                    &&& item@ == self@.items[*id as int].1
                },
                None => *id >= self@.items.len(),
            },
    {
        if *id < self.items.len() as DraftItemId {
            Some(&self.items[*id as usize])
        } else {
            None
        }
    }

    /// One item id per deduplicated name, chosen at random within each group.
    ///
    /// The returned ids are distinct, resolve in the catalogue, and there is
    /// one for each deduplicated name.
    pub fn get_item_list(&self) -> (r: Vec<DraftItemId>)
        requires
            self@.wf(),
        ensures
            r@.len() == self@.groups.len(),
            r@.no_duplicates(),
            forall|i: int| 0 <= i < r@.len() ==> self@.has_item(#[trigger] r@[i]),
            forall|i: int|
                0 <= i < r@.len() ==> (#[trigger] self@.groups[i]).1.contains(r@[i]),
    {
        let mut out: Vec<DraftItemId> = Vec::new();
        let n: usize = self.groups.len();
        let mut g: usize = 0;
        while g < n
            invariant
                0 <= g <= n,
                self@.wf(),
                n == self@.groups.len(),
                n == self.groups@.len(),
                out@.len() == g,
                forall|i: int|
                    0 <= i < g ==> (#[trigger] self@.groups[i]).1.contains(out@[i]),
            decreases n - g,
        {
            proof {
                assert(self@.groups[g as int].1 == self.groups@[g as int].1@);
            }
            let pick = crate::external::choose_from(&self.groups[g].1);
            out.push(pick);
            g += 1;
        }
        proof {
            lemma_group_members_distinct(self@, out@);
            assert forall|i: int| 0 <= i < out@.len() implies self@.has_item(
                #[trigger] out@[i],
            ) by {
                let grp = self@.groups[i].1;
                let j = choose|j: int| 0 <= j < grp.len() && grp[j] == out@[i];
                assert(self@.items[out@[i] as int].0 == out@[i]);
                assert(self@.item_ids()[out@[i] as int] == out@[i]);
            }
        }
        out
    }
}

/// The set model that results from appending an id to an existing group.
pub open spec fn final_set_model_after_group_push(
    s: SetModel,
    g: int,
    id: DraftItemId,
    item: ItemModel,
) -> SetModel {
    SetModel {
        items: s.items.push((id, item)),
        groups: s.groups.update(g, (s.groups[g].0, s.groups[g].1.push(id))),
    }
}

proof fn lemma_wf_after_group_push(s: SetModel, g: int, id: DraftItemId, item: ItemModel)
    requires
        s.wf(),
        0 <= g < s.groups.len(),
        id == s.items.len(),
        s.items.len() < 0x1000_0000,
    ensures
        final_set_model_after_group_push(s, g, id, item).wf(),
{
    let s2 = final_set_model_after_group_push(s, g, id, item);
    assert(s2.group_names() =~= s.group_names());
    assert forall|g1: int, j1: int, g2: int, j2: int|
        0 <= g1 < s2.groups.len() && 0 <= j1 < s2.groups[g1].1.len() && 0 <= g2
            < s2.groups.len() && 0 <= j2 < s2.groups[g2].1.len() && (g1 != g2 || j1
            != j2) implies #[trigger] s2.groups[g1].1[j1] != #[trigger] s2.groups[g2].1[j2] by {
        if g1 == g && j1 == s.groups[g].1.len() {
            assert(s2.groups[g1].1[j1] == id);
            assert(s2.groups[g2].1[j2] < s.items.len());
        } else if g2 == g && j2 == s.groups[g].1.len() {
            assert(s2.groups[g2].1[j2] == id);
            assert(s2.groups[g1].1[j1] < s.items.len());
        } else {
            assert(s2.groups[g1].1[j1] == s.groups[g1].1[j1]);
            assert(s2.groups[g2].1[j2] == s.groups[g2].1[j2]);
        }
    }
}

/// The set model that results from opening a new group for a fresh name.
pub open spec fn final_set_model_after_new_group(
    s: SetModel,
    id: DraftItemId,
    item: ItemModel,
    name: Seq<char>,
) -> SetModel {
    SetModel { items: s.items.push((id, item)), groups: s.groups.push((name, seq![id])) }
}

proof fn lemma_wf_after_new_group(s: SetModel, id: DraftItemId, item: ItemModel, name: Seq<char>)
    requires
        s.wf(),
        id == s.items.len(),
        s.items.len() < 0x1000_0000,
        !s.group_names().contains(name),
    ensures
        final_set_model_after_new_group(s, id, item, name).wf(),
{
    let s2 = final_set_model_after_new_group(s, id, item, name);
    assert(s2.group_names() =~= s.group_names().push(name));
    let gn = s.groups.len() as int;
    assert forall|g1: int, j1: int, g2: int, j2: int|
        0 <= g1 < s2.groups.len() && 0 <= j1 < s2.groups[g1].1.len() && 0 <= g2
            < s2.groups.len() && 0 <= j2 < s2.groups[g2].1.len() && (g1 != g2 || j1
            != j2) implies #[trigger] s2.groups[g1].1[j1] != #[trigger] s2.groups[g2].1[j2] by {
        if g1 == gn {
            assert(s2.groups[g1].1[j1] == id);
            assert(s2.groups[g2].1[j2] < s.items.len());
        } else if g2 == gn {
            assert(s2.groups[g2].1[j2] == id);
            assert(s2.groups[g1].1[j1] < s.items.len());
        } else {
            assert(s2.groups[g1].1[j1] == s.groups[g1].1[j1]);
            assert(s2.groups[g2].1[j2] == s.groups[g2].1[j2]);
        }
    }
}

proof fn lemma_group_members_distinct(s: SetModel, picks: Seq<DraftItemId>)
    requires
        s.wf(),
        picks.len() == s.groups.len(),
        forall|i: int| 0 <= i < picks.len() ==> (#[trigger] s.groups[i]).1.contains(picks[i]),
    ensures
        picks.no_duplicates(),
{
    assert forall|i: int, j: int|
        0 <= i < picks.len() && 0 <= j < picks.len() && i != j implies picks[i] != picks[j] by {
        let ji = choose|k: int| 0 <= k < s.groups[i].1.len() && s.groups[i].1[k] == picks[i];
        let jj = choose|k: int| 0 <= k < s.groups[j].1.len() && s.groups[j].1[k] == picks[j];
        assert(s.groups[i].1[ji] != s.groups[j].1[jj]);
    }
}

/// The abstract value of the database: set names with their set models.
pub struct DbModel {
    pub sets: Seq<(Seq<char>, SetModel)>,
}

impl DbModel {
    /// The catalogue's set names, in insertion order.
    pub open spec fn set_names(self) -> Seq<Seq<char>> {
        self.sets.map_values(|p: (Seq<char>, SetModel)| p.0)
    }

    /// Set names are unique and every set is well formed.
    pub open spec fn wf(self) -> bool {
        &&& self.set_names().no_duplicates()
        &&& forall|i: int| 0 <= i < self.sets.len() ==> (#[trigger] self.sets[i]).1.wf()
    }
}

/// The catalogue of draft sets, keyed by set name.
pub struct DraftDb {
    sets: Vec<(String, DraftSet)>,
}

impl View for DraftDb {
    type V = DbModel;

    closed spec fn view(&self) -> DbModel {
        DbModel {
            sets: Seq::new(self.sets@.len(), |i: int| (self.sets@[i].0@, self.sets@[i].1@)),
        }
    }
}

impl DraftDb {
    /// An empty database, to be filled one set at a time.
    pub fn new() -> (db: DraftDb)
        ensures
            db@.wf(),
            db@.sets.len() == 0,
    {
        let db = DraftDb { sets: Vec::new() };
        proof {
            assert(db@.sets =~= Seq::<(Seq<char>, SetModel)>::empty());
            assert(db@.set_names() =~= Seq::<Seq<char>>::empty());
        }
        db
    }

    /// Adds a set under a name; refuses a name that is already in use.
    pub fn add_set(&mut self, set_name: String, set: DraftSet) -> (added: bool)
        requires
            old(self)@.wf(),
            set@.wf(),
        ensures
            final(self)@.wf(),
            added == !old(self)@.set_names().contains(set_name@),
            added ==> final(self)@.sets == old(self)@.sets.push((set_name@, set@)),
            !added ==> final(self)@ == old(self)@,
    {
        let n: usize = self.sets.len();
        let mut i: usize = 0;
        while i < n
            invariant
                0 <= i <= n,
                n == self.sets@.len(),
                self@ == old(self)@,
                old(self)@.wf(),
                forall|k: int| 0 <= k < i ==> (#[trigger] self@.sets[k]).0 != set_name@,
            decreases n - i,
        {
            if self.sets[i].0.eq(&set_name) {
                proof {
                    assert(self@.set_names()[i as int] == set_name@);
                    assert(self@ == old(self)@);
                    assert(self@.wf());
                }
                return false;
            }
            i += 1;
        }
        proof {
            assert forall|k: int|
                0 <= k < self@.set_names().len() implies #[trigger] self@.set_names()[k]
                != set_name@ by {
                assert(self@.sets[k].0 != set_name@);
            }
        }
        self.sets.push((set_name, set));
        proof {
            assert(self@.sets =~= old(self)@.sets.push((set_name@, set@)));
            assert(self@.set_names() =~= old(self)@.set_names().push(set_name@));
        }
        true
    }

    /// Looks a set up by name; answers exactly when the name is catalogued.
    pub fn get_set(&self, set_name: &String) -> (r: Option<&DraftSet>)
        requires
            self@.wf(),
        ensures
            match r {
                Some(set) => {
                    &&& self@.set_names().contains(set_name@)
                    &&& exists|i: int|
                        0 <= i < self@.sets.len() && (#[trigger] self@.sets[i]).0 == set_name@
                            && set@ == self@.sets[i].1
                },
                None => !self@.set_names().contains(set_name@),
            },
    {
        let n: usize = self.sets.len();
        let mut i: usize = 0;
        while i < n
            invariant
                0 <= i <= n,
                n == self.sets@.len(),
                forall|k: int| 0 <= k < i ==> (#[trigger] self@.sets[k]).0 != set_name@,
            decreases n - i,
        {
            if self.sets[i].0.eq(set_name) {
                proof {
                    assert(self@.set_names()[i as int] == set_name@);
                }
                return Some(&self.sets[i].1);
            }
            i += 1;
        }
        proof {
            assert forall|k: int|
                0 <= k < self@.set_names().len() implies #[trigger] self@.set_names()[k]
                != set_name@ by {
                assert(self@.sets[k].0 != set_name@);
            }
        }
        None
    }
}

} // verus!
