//! Reordering the enabled VPK files of a profile over its shards.
use super::{copying, naming, staging, GroupView, ShardAssignment, ShardPlacement, VpkManager};
use super::copying::not_found_text;
use super::naming::{enabled_names, pak_name, pak_number};
use super::staging::{
    claimed, recovered, run_plan, staging_plan, step_views, PendingVpkOperation, RecoveryMode,
    Step, StepView,
};
use crate::{order, path, text};
use crate::disk::{
    cannot_text, exists_at, folder, is_dir_at, names_in, without_tree, Disk, DiskView,
};
use crate::error::{Error, ErrorView};
use crate::journal::{group_journal, mild, ordered, rested, undoable, went};
use crate::order::{sorted_by, sorted_places, SortKey};
use crate::path::{base_name, path_join, PathView, TreePath};
use crate::shard::{
    bad_base_text, base_of, shard_dir_of, BaseView, ProfileBase, ShardIndex, MAX_SHARDS,
    REORDER_STAGING_DIR, SHARD_CAPACITY,
};
use crate::table::{keys_of, Key, Model, Table};
use crate::text::{dec, joined, text_before, texts};
use crate::vpk_manifest::path_views;
use vstd::prelude::*;
use vstd::string::*;

verus! {

broadcast use group_journal;

// ---------------------------------------------------------------------------
// Empty shards
// ---------------------------------------------------------------------------

/// The tree without a directory that is empty. A link to one stays.
pub open spec fn empty_dropped(d: DiskView, dir: PathView) -> DiskView {
    if exists_at(d, dir) && d[dir] == folder() && names_in(d, dir).len() == 0 {
        d.remove(dir)
    } else {
        d
    }
}

/// The tree without the empty directories of shards 2 to `n`.
pub open spec fn pruned_to(d: DiskView, b: BaseView, n: nat) -> DiskView
    decreases n,
{
    if n <= 1 {
        d
    } else {
        empty_dropped(pruned_to(d, b, (n - 1) as nat), shard_dir_of(b, n))
    }
}

/// The tree without the empty directories of shards other than the first.
pub open spec fn pruned_shards(d: DiskView, b: BaseView) -> DiskView {
    pruned_to(d, b, MAX_SHARDS as nat)
}

impl VpkManager {
    /// Removes the empty directories of shards other than the first.
    pub fn prune_empty_shard_dirs(disk: &mut Disk, base: &ProfileBase)
        ensures
            undoable(*old(disk), *final(disk)),
            mild(*old(disk), *final(disk)),
            final(disk)@ == pruned_shards(old(disk)@, base@),
    {
        let shards = base.shards();
        let ghost d = disk@;
        let mut i: usize = 1;
        while i < shards.len()
            invariant
                1 <= i <= shards@.len() == MAX_SHARDS,
                d == old(disk)@,
                forall|j: int|
                    0 <= j < MAX_SHARDS ==> (#[trigger] shards@[j]).1@ == shard_dir_of(
                        base@,
                        (j + 1) as nat,
                    ),
                undoable(*old(disk), *disk),
                mild(*old(disk), *disk),
                disk@ == pruned_to(d, base@, i as nat),
            decreases shards@.len() - i,
        {
            assert(shards@[i as int].1@ == shard_dir_of(base@, (i + 1) as nat));
            disk.drop_empty_dir(&shards[i].1);
            i = i + 1;
        }
    }
}

// ---------------------------------------------------------------------------
// What the mods claim
// ---------------------------------------------------------------------------

/// An enabled file that a mod claims.
pub struct ClaimView {
    pub shard: nat,
    pub name: Seq<char>,
    pub mod_id: Seq<char>,
}

pub open spec fn group_claims(g: GroupView) -> Seq<ClaimView> {
    g.vpks.map_values(
        |v: Seq<char>| ClaimView { shard: g.shard, name: base_name(v), mod_id: g.mod_id },
    )
}

/// What the first `k` mods claim, in order.
pub open spec fn claims_of(groups: Seq<GroupView>, k: int) -> Seq<ClaimView>
    decreases k,
{
    if k <= 0 {
        Seq::empty()
    } else {
        claims_of(groups, k - 1) + group_claims(groups[k - 1])
    }
}

/// What all mods claim, in order.
pub open spec fn all_claims(groups: Seq<GroupView>) -> Seq<ClaimView> {
    claims_of(groups, groups.len() as int)
}

pub open spec fn claim_path(b: BaseView, c: ClaimView) -> PathView {
    path_join(shard_dir_of(b, c.shard), c.name)
}

struct Claim {
    shard: ShardIndex,
    name: String,
    mod_id: String,
}

impl View for Claim {
    type V = ClaimView;

    closed spec fn view(&self) -> ClaimView {
        ClaimView { shard: self.shard.number(), name: self.name@, mod_id: self.mod_id@ }
    }
}

spec fn claim_views(v: Seq<Claim>) -> Seq<ClaimView> {
    v.map_values(|c: Claim| c@)
}

pub open spec fn assignment_views(v: Seq<ShardAssignment>) -> Seq<GroupView> {
    v.map_values(|a: ShardAssignment| a@)
}

pub open spec fn placement_views(v: Seq<ShardPlacement>) -> Seq<GroupView> {
    v.map_values(|a: ShardPlacement| a@)
}

fn list_claims(groups: &Vec<ShardAssignment>) -> (r: Vec<Claim>)
    ensures
        claim_views(r@) == all_claims(assignment_views(groups@)),
{
    let ghost gv = assignment_views(groups@);
    let mut r: Vec<Claim> = Vec::new();
    let mut i: usize = 0;
    assert(claim_views(r@) =~= Seq::<ClaimView>::empty());
    while i < groups.len()
        invariant
            i <= groups@.len(),
            gv == assignment_views(groups@),
            claim_views(r@) == claims_of(gv, i as int),
        decreases groups@.len() - i,
    {
        let g = &groups[i];
        assert(gv[i as int] == g@);
        let ghost before = claim_views(r@);
        let ghost own = group_claims(g@);
        let mut j: usize = 0;
        assert(claim_views(r@) =~= before + own.take(0));
        while j < g.vpks.len()
            invariant
                j <= g.vpks@.len(),
                own == group_claims(g@),
                own.len() == g.vpks@.len(),
                claim_views(r@) == before + own.take(j as int),
            decreases g.vpks@.len() - j,
        {
            let c = Claim {
                shard: g.shard,
                name: path::base_name_of(g.vpks[j].as_str()),
                mod_id: g.mod_id.clone(),
            };
            proof {
                assert(own[j as int] == c@);
                assert(own.take(j + 1) =~= own.take(j as int).push(own[j as int]));
                assert(claim_views(r@.push(c)) =~= claim_views(r@).push(c@));
                assert(before + own.take(j + 1) =~= (before + own.take(j as int)).push(c@));
            }
            r.push(c);
            j = j + 1;
        }
        assert(own.take(own.len() as int) =~= own);
        i = i + 1;
    }
    r
}

// ---------------------------------------------------------------------------
// Files claimed twice
// ---------------------------------------------------------------------------

/// A slot, ordered by shard and then by name.
pub type SlotView = (nat, Seq<char>);

/// A shard and the name of a file in it.
pub struct Slot {
    pub shard: u32,
    pub name: String,
}

impl Key for Slot {
    type Value = SlotView;

    open spec fn key(&self) -> SlotView {
        (self.shard as nat, self.name@)
    }

    open spec fn before(a: SlotView, b: SlotView) -> bool {
        a.0 < b.0 || (a.0 == b.0 && text_before(a.1, b.1))
    }

    proof fn before_total(a: SlotView, b: SlotView) {
        text::lemma_text_before_total(a.1, b.1);
        text::lemma_text_before_total(a.1, a.1);
    }

    proof fn before_transitive(a: SlotView, b: SlotView, c: SlotView) {
        if a.0 == b.0 && b.0 == c.0 {
            text::lemma_text_before_transitive(a.1, b.1, c.1);
        }
    }

    fn precedes(&self, other: &Self) -> (r: bool) {
        self.shard < other.shard || (self.shard == other.shard && text::is_before(
            self.name.as_str(),
            other.name.as_str(),
        ))
    }

    fn same(&self, other: &Self) -> (r: bool) {
        self.shard == other.shard && self.name == other.name
    }

    fn copy_key(&self) -> (r: Self) {
        Slot { shard: self.shard, name: self.name.clone() }
    }
}

struct Owners {
    ids: Vec<String>,
}

impl View for Owners {
    type V = Seq<Seq<char>>;

    closed spec fn view(&self) -> Seq<Seq<char>> {
        texts(self.ids@)
    }
}

impl Model for Owners {
    fn copy_value(&self) -> (r: Self) {
        Owners { ids: text::copy_texts(&self.ids) }
    }
}

/// The mods that claim a file, in order, among the first `k` claims.
pub open spec fn owners_of(claims: Seq<ClaimView>, slot: SlotView, k: int) -> Seq<Seq<char>>
    decreases k,
{
    if k <= 0 {
        Seq::empty()
    } else if (claims[k - 1].shard, claims[k - 1].name) == slot {
        owners_of(claims, slot, k - 1).push(claims[k - 1].mod_id)
    } else {
        owners_of(claims, slot, k - 1)
    }
}

/// The mods that claim each claimed file.
pub open spec fn owner_map(claims: Seq<ClaimView>) -> Map<SlotView, Seq<Seq<char>>> {
    Map::new(
        |slot: SlotView| owners_of(claims, slot, claims.len() as int).len() > 0,
        |slot: SlotView| owners_of(claims, slot, claims.len() as int),
    )
}

/// The claimed files in order of shard and name.
pub open spec fn slots_in_order(m: Map<SlotView, Seq<Seq<char>>>) -> Seq<SlotView> {
    keys_of::<Slot, Seq<Seq<char>>>(m)
}

/// The files claimed more than once, each with its owners.
pub open spec fn duplicate_texts(claims: Seq<ClaimView>) -> Seq<Seq<char>> {
    let m = owner_map(claims);
    slots_in_order(m).filter(|slot: SlotView| m[slot].len() > 1).map_values(
        |slot: SlotView| slot.1 + " -> "@ + joined(m[slot], ", "@),
    )
}

fn build_owner_table(claims: &Vec<Claim>) -> (r: Table<Slot, Owners>)
    ensures
        r@ == owner_map(claim_views(claims@)),
{
    let ghost cv = claim_views(claims@);
    let mut table: Table<Slot, Owners> = Table::new();
    let mut i: usize = 0;
    while i < claims.len()
        invariant
            i <= claims@.len(),
            cv == claim_views(claims@),
            forall|slot: SlotView|
                #[trigger] table@.contains_key(slot) <==> owners_of(cv, slot, i as int).len() > 0,
            forall|slot: SlotView| #[trigger]
                table@.contains_key(slot) ==> table@[slot] == owners_of(cv, slot, i as int),
        decreases claims@.len() - i,
    {
        let c = &claims[i];
        assert(cv[i as int] == c@);
        let slot = Slot { shard: c.shard.get(), name: c.name.clone() };
        let ghost key = slot.key();
        assert(key == (c@.shard, c@.name));
        let mut ids: Vec<String> = match table.get(&slot) {
            Some(o) => text::copy_texts(&o.ids),
            None => Vec::new(),
        };
        proof {
            if !table@.contains_key(key) {
                assert(owners_of(cv, key, i as int) =~= Seq::<Seq<char>>::empty());
                assert(texts(ids@) =~= Seq::<Seq<char>>::empty());
            }
            assert(texts(ids@) == owners_of(cv, key, i as int));
        }
        let id = c.mod_id.clone();
        proof {
            text::lemma_texts_push(ids@, id);
        }
        ids.push(id);
        let ghost before = table@;
        table.insert(slot, Owners { ids });
        proof {
            assert forall|s: SlotView| #[trigger] table@.contains_key(s) <==> owners_of(
                cv,
                s,
                i + 1,
            ).len() > 0 by {
                if s != key {
                    assert(before.contains_key(s) <==> owners_of(cv, s, i as int).len() > 0);
                }
            }
            assert forall|s: SlotView| #[trigger] table@.contains_key(s) implies table@[s]
                == owners_of(cv, s, i + 1) by {
                if s != key {
                    assert(before.contains_key(s));
                }
            }
        }
        i = i + 1;
    }
    assert(table@ =~= owner_map(cv));
    table
}

fn list_duplicates(claims: &Vec<Claim>) -> (r: Vec<String>)
    ensures
        texts(r@) == duplicate_texts(claim_views(claims@)),
        r@.len() == duplicate_texts(claim_views(claims@)).len(),
{
    let table = build_owner_table(claims);
    let ghost m = owner_map(claim_views(claims@));
    let n: usize = table.len();
    let ghost keys = slots_in_order(m);
    let ghost pred = |slot: SlotView| m[slot].len() > 1;
    let ghost show = |slot: SlotView| slot.1 + " -> "@ + joined(m[slot], ", "@);
    let mut r: Vec<String> = Vec::new();
    let mut i: usize = 0;
    proof {
        reveal(Seq::filter);
        assert(keys.take(0).filter(pred) =~= Seq::<SlotView>::empty());
        assert(texts(r@) =~= keys.take(0).filter(pred).map_values(show));
    }
    while i < n
        invariant
            i <= n == keys.len(),
            m == table@,
            keys == table.keys(),
            pred == (|slot: SlotView| m[slot].len() > 1),
            show == (|slot: SlotView| slot.1 + " -> "@ + joined(m[slot], ", "@)),
            texts(r@) == keys.take(i as int).filter(pred).map_values(show),
        decreases n - i,
    {
        let slot = table.key_at(i);
        let owners = table.value_at(i);
        let ghost so_far = keys.take(i as int).filter(pred);
        proof {
            assert(keys.take(i + 1) =~= keys.take(i as int).push(keys[i as int]));
            crate::disk::lemma_filter_push(keys.take(i as int), keys[i as int], pred);
            assert(so_far.push(keys[i as int]).map_values(show) =~= so_far.map_values(show).push(
                show(keys[i as int]),
            ));
            assert(texts(owners.ids@).len() == owners.ids@.len());
        }
        if owners.ids.len() > 1 {
            let mut s = slot.name.clone();
            s.append(" -> ");
            s.append(text::join_texts(&owners.ids, ", ").as_str());
            proof {
                text::lemma_texts_push(r@, s);
            }
            r.push(s);
        }
        i = i + 1;
    }
    proof {
        assert(keys.take(n as int) =~= keys);
        assert(texts(r@).len() == r@.len());
    }
    r
}

proof fn lemma_owners(claims: Seq<ClaimView>, slot: SlotView, k: int, n: int)
    requires
        0 <= k <= n <= claims.len(),
    ensures
        owners_of(claims, slot, k).len() <= owners_of(claims, slot, n).len(),
    decreases n - k,
{
    if k < n {
        lemma_owners(claims, slot, k, n - 1);
    }
}

proof fn lemma_slots_finite(claims: Seq<ClaimView>, k: int)
    requires
        0 <= k <= claims.len(),
    ensures
        Set::new(|slot: SlotView| owners_of(claims, slot, k).len() > 0).finite(),
    decreases k,
{
    let all = Set::new(|slot: SlotView| owners_of(claims, slot, k).len() > 0);
    if k == 0 {
        assert(all =~= Set::empty());
    } else {
        lemma_slots_finite(claims, k - 1);
        let fewer = Set::new(|slot: SlotView| owners_of(claims, slot, k - 1).len() > 0);
        assert(all =~= fewer.insert((claims[k - 1].shard, claims[k - 1].name)));
    }
}

/// Where no file is reported as claimed twice, none is.
pub proof fn law_unreported_claims_are_single(claims: Seq<ClaimView>, i: int, j: int)
    requires
        duplicate_texts(claims).len() == 0,
        0 <= i < j < claims.len(),
    ensures
        claims[i].shard != claims[j].shard || claims[i].name != claims[j].name,
{
    let slot = (claims[i].shard, claims[i].name);
    if claims[i].shard == claims[j].shard && claims[i].name == claims[j].name {
        let n = claims.len() as int;
        let m = owner_map(claims);
        lemma_owners(claims, slot, i + 1, j);
        lemma_owners(claims, slot, j + 1, n);
        lemma_slots_finite(claims, n);
        assert(m.dom() =~= Set::new(|slot: SlotView| owners_of(claims, slot, n).len() > 0));
        crate::table::lemma_finite_has_order::<Slot, Seq<Seq<char>>>(m);
        let keys = slots_in_order(m);
        let pred = |slot: SlotView| m[slot].len() > 1;
        assert(m.contains_key(slot));
        assert(keys.contains(slot));
        crate::disk::lemma_filter_members(keys, pred);
        assert(keys.filter(pred).contains(slot));
    }
}

// ---------------------------------------------------------------------------
// Files that are missing
// ---------------------------------------------------------------------------

/// The claims whose file is missing, each as `mod:file`.
pub open spec fn missing_claims(d: DiskView, b: BaseView, claims: Seq<ClaimView>) -> Seq<
    Seq<char>,
> {
    claims.filter(|c: ClaimView| !exists_at(d, claim_path(b, c))).map_values(
        |c: ClaimView| c.mod_id + ":"@ + c.name,
    )
}

fn list_missing_claims(disk: &Disk, base: &ProfileBase, claims: &Vec<Claim>) -> (r: Vec<String>)
    ensures
        texts(r@) == missing_claims(disk@, base@, claim_views(claims@)),
        r@.len() == missing_claims(disk@, base@, claim_views(claims@)).len(),
{
    let ghost all = claim_views(claims@);
    let ghost pred = |c: ClaimView| !exists_at(disk@, claim_path(base@, c));
    let ghost show = |c: ClaimView| c.mod_id + ":"@ + c.name;
    let mut r: Vec<String> = Vec::new();
    let mut i: usize = 0;
    proof {
        reveal(Seq::filter);
        assert(all.take(0).filter(pred) =~= Seq::<ClaimView>::empty());
        assert(texts(r@) =~= all.take(0).filter(pred).map_values(show));
    }
    while i < claims.len()
        invariant
            i <= claims@.len(),
            all == claim_views(claims@),
            pred == (|c: ClaimView| !exists_at(disk@, claim_path(base@, c))),
            show == (|c: ClaimView| c.mod_id + ":"@ + c.name),
            texts(r@) == all.take(i as int).filter(pred).map_values(show),
        decreases claims@.len() - i,
    {
        let c = &claims[i];
        let ghost so_far = all.take(i as int).filter(pred);
        proof {
            assert(all[i as int] == c@);
            assert(all.take(i + 1) =~= all.take(i as int).push(all[i as int]));
            crate::disk::lemma_filter_push(all.take(i as int), all[i as int], pred);
            assert(so_far.push(all[i as int]).map_values(show) =~= so_far.map_values(show).push(
                show(all[i as int]),
            ));
        }
        if !disk.has(&base.shard_dir(c.shard).join(c.name.as_str())) {
            let mut s = c.mod_id.clone();
            s.append(":");
            s.append(c.name.as_str());
            proof {
                text::lemma_texts_push(r@, s);
            }
            r.push(s);
        }
        i = i + 1;
    }
    proof {
        assert(all.take(all.len() as int) =~= all);
        assert(texts(r@).len() == r@.len());
    }
    r
}

// ---------------------------------------------------------------------------
// Files that no mod claims
// ---------------------------------------------------------------------------

pub open spec fn is_claimed(claims: Seq<ClaimView>, shard: nat, name: Seq<char>) -> bool {
    exists|i: int|
        0 <= i < claims.len() && (#[trigger] claims[i]).shard == shard && claims[i].name == name
}

/// The enabled files of a shard that no mod claims, by name.
pub open spec fn orphan_names(d: DiskView, b: BaseView, claims: Seq<ClaimView>, n: nat) -> Seq<
    Seq<char>,
> {
    enabled_names(d, shard_dir_of(b, n)).filter(|name: Seq<char>| !is_claimed(claims, n, name))
}

/// What enabled names are sorted by: their numbers.
pub open spec fn number_keys(names: Seq<Seq<char>>) -> Seq<SortKey> {
    names.map_values(
        |name: Seq<char>| (pak_number(name)->0 as u64, 0u64, 0u64),
    )
}

/// The files of shard `n` that no mod claims, by number.
pub open spec fn shard_orphans(d: DiskView, b: BaseView, claims: Seq<ClaimView>, n: nat) -> Seq<
    PathView,
> {
    let names = orphan_names(d, b, claims, n);
    sorted_by(names, number_keys(names)).map_values(
        |name: Seq<char>| shard_dir_of(b, n).push(name),
    )
}

/// The files of shards 1 to `n` that no mod claims, by shard and number.
pub open spec fn orphans_to(d: DiskView, b: BaseView, claims: Seq<ClaimView>, n: nat) -> Result<
    Seq<PathView>,
    ErrorView,
>
    decreases n,
{
    if n == 0 {
        Ok(Seq::empty())
    } else {
        let dir = shard_dir_of(b, n);
        match orphans_to(d, b, claims, (n - 1) as nat) {
            Err(e) => Err(e),
            Ok(list) => if !exists_at(d, dir) {
                Ok(list)
            } else if !is_dir_at(d, dir) {
                Err(ErrorView::Io(cannot_text("list"@, dir)))
            } else {
                Ok(list + shard_orphans(d, b, claims, n))
            },
        }
    }
}

fn claims_hold(claims: &Vec<Claim>, shard: ShardIndex, name: &str) -> (r: bool)
    ensures
        r == is_claimed(claim_views(claims@), shard.number(), name@),
{
    let ghost cv = claim_views(claims@);
    let mut i: usize = 0;
    while i < claims.len()
        invariant
            i <= claims@.len(),
            cv == claim_views(claims@),
            forall|j: int|
                0 <= j < i ==> !((#[trigger] cv[j]).shard == shard.number() && cv[j].name == name@),
        decreases claims@.len() - i,
    {
        assert(cv[i as int] == claims@[i as int]@);
        if claims[i].shard.is(shard) && text::same_text(claims[i].name.as_str(), name) {
            return true;
        }
        i = i + 1;
    }
    false
}

fn list_orphan_names(
    disk: &Disk,
    dir: &TreePath,
    base: &ProfileBase,
    claims: &Vec<Claim>,
    shard: ShardIndex,
) -> (r: Vec<String>)
    requires
        dir@ == shard_dir_of(base@, shard.number()),
    ensures
        texts(r@) == orphan_names(disk@, base@, claim_views(claims@), shard.number()),
{
    let names = naming::list_enabled(disk, dir);
    let ghost all = enabled_names(disk@, dir@);
    let ghost cv = claim_views(claims@);
    let ghost pred = |name: Seq<char>| !is_claimed(cv, shard.number(), name);
    let mut r: Vec<String> = Vec::new();
    let mut i: usize = 0;
    proof {
        reveal(Seq::filter);
        assert(all.take(0).filter(pred) =~= Seq::<Seq<char>>::empty());
        assert(texts(r@) =~= Seq::<Seq<char>>::empty());
    }
    while i < names.len()
        invariant
            i <= names@.len(),
            texts(names@) == all,
            cv == claim_views(claims@),
            pred == (|name: Seq<char>| !is_claimed(cv, shard.number(), name)),
            texts(r@) == all.take(i as int).filter(pred),
        decreases names@.len() - i,
    {
        proof {
            assert(all[i as int] == names@[i as int]@);
            assert(all.take(i + 1) =~= all.take(i as int).push(all[i as int]));
            crate::disk::lemma_filter_push(all.take(i as int), all[i as int], pred);
        }
        if !claims_hold(claims, shard, names[i].as_str()) {
            let s = names[i].clone();
            proof {
                text::lemma_texts_push(r@, s);
            }
            r.push(s);
        }
        i = i + 1;
    }
    assert(all.take(all.len() as int) =~= all);
    r
}

fn list_shard_orphans(
    disk: &Disk,
    dir: &TreePath,
    base: &ProfileBase,
    claims: &Vec<Claim>,
    shard: ShardIndex,
) -> (r: Vec<TreePath>)
    requires
        dir@ == shard_dir_of(base@, shard.number()),
    ensures
        path_views(r@) == shard_orphans(disk@, base@, claim_views(claims@), shard.number()),
{
    let names = list_orphan_names(disk, dir, base, claims, shard);
    let ghost nv = orphan_names(disk@, base@, claim_views(claims@), shard.number());
    let mut keys: Vec<SortKey> = Vec::new();
    let mut i: usize = 0;
    proof {
        crate::disk::lemma_filter_members(
            enabled_names(disk@, dir@),
            |name: Seq<char>| !is_claimed(claim_views(claims@), shard.number(), name),
        );
        crate::disk::lemma_filter_members(
            names_in(disk@, dir@),
            |n: Seq<char>| naming::enabled_in(disk@, dir@, n),
        );
        assert forall|j: int| 0 <= j < nv.len() implies pak_number(#[trigger] nv[j]) is Some by {
            assert(nv.contains(nv[j]));
        }
    }
    while i < names.len()
        invariant
            i <= names@.len(),
            texts(names@) == nv,
            forall|j: int| 0 <= j < nv.len() ==> pak_number(#[trigger] nv[j]) is Some,
            keys@.len() == i,
            forall|j: int| 0 <= j < i ==> #[trigger] keys@[j] == number_keys(nv)[j],
        decreases names@.len() - i,
    {
        assert(nv[i as int] == names@[i as int]@);
        let number: u32 = match VpkManager::enabled_vpk_number(names[i].as_str()) {
            Some(n) => n,
            None => 0,
        };
        keys.push((number as u64, 0, 0));
        i = i + 1;
    }
    assert(keys@ =~= number_keys(nv));
    let places = order::stable_order(&keys);
    let ghost sorted = sorted_by(nv, number_keys(nv));
    let mut r: Vec<TreePath> = Vec::new();
    let mut k: usize = 0;
    while k < places.len()
        invariant
            k <= places@.len(),
            texts(names@) == nv,
            places@.len() == names@.len(),
            forall|j: int| 0 <= j < places@.len() ==> 0 <= #[trigger] places@[j] < names@.len(),
            r@.len() == k,
            forall|j: int|
                0 <= j < k ==> (#[trigger] r@[j])@ == dir@.push(nv[places@[j] as int]),
        decreases places@.len() - k,
    {
        let at: usize = places[k];
        assert(nv[at as int] == names@[at as int]@);
        r.push(dir.child(names[at].as_str()));
        k = k + 1;
    }
    proof {
        let want = sorted.map_values(|name: Seq<char>| dir@.push(name));
        assert(order::place_views(places@) == sorted_places(number_keys(nv)));
        assert forall|j: int| 0 <= j < want.len() implies path_views(r@)[j] == want[j] by {
            assert(order::place_views(places@)[j] == places@[j]);
            assert(r@[j]@ == dir@.push(nv[places@[j] as int]));
        }
        assert(path_views(r@) =~= want);
    }
    r
}

fn find_orphaned_enabled_vpks(disk: &Disk, base: &ProfileBase, claims: &Vec<Claim>) -> (r: Result<
    Vec<TreePath>,
    Error,
>)
    ensures
        match r {
            Ok(v) => orphans_to(disk@, base@, claim_views(claims@), MAX_SHARDS as nat) == Ok::<
                Seq<PathView>,
                ErrorView,
            >(path_views(v@)),
            Err(e) => orphans_to(disk@, base@, claim_views(claims@), MAX_SHARDS as nat) == Err::<
                Seq<PathView>,
                ErrorView,
            >(e@),
        },
{
    let shards = base.shards();
    let ghost cv = claim_views(claims@);
    let mut r: Vec<TreePath> = Vec::new();
    let mut i: usize = 0;
    assert(path_views(r@) =~= Seq::<PathView>::empty());
    while i < shards.len()
        invariant
            i <= shards@.len() == MAX_SHARDS,
            cv == claim_views(claims@),
            forall|j: int|
                0 <= j < MAX_SHARDS ==> (#[trigger] shards@[j]).0.number() == j + 1 && shards@[j].1@
                    == shard_dir_of(base@, (j + 1) as nat),
            orphans_to(disk@, base@, cv, i as nat) == Ok::<Seq<PathView>, ErrorView>(
                path_views(r@),
            ),
        decreases shards@.len() - i,
    {
        let dir = &shards[i].1;
        assert(dir@ == shard_dir_of(base@, (i + 1) as nat));
        if disk.has(dir) {
            if !disk.is_dir(dir) {
                let e = staging::cannot_list(dir);
                proof {
                    assert(orphans_to(disk@, base@, cv, (i + 1) as nat) is Err);
                    lemma_orphans_stop(disk@, base@, cv, (i + 1) as nat, MAX_SHARDS as nat);
                }
                return Err(e);
            }
            let mut more = list_shard_orphans(disk, dir, base, claims, shards[i].0);
            let ghost before = path_views(r@);
            let ghost added = path_views(more@);
            r.append(&mut more);
            assert(path_views(r@) =~= before + added);
        }
        i = i + 1;
    }
    Ok(r)
}

proof fn lemma_orphans_stop(d: DiskView, b: BaseView, claims: Seq<ClaimView>, k: nat, n: nat)
    requires
        k <= n,
        orphans_to(d, b, claims, k) is Err,
    ensures
        orphans_to(d, b, claims, n) == orphans_to(d, b, claims, k),
    decreases n - k,
{
    if k < n {
        lemma_orphans_stop(d, b, claims, k, (n - 1) as nat);
    }
}

// ---------------------------------------------------------------------------
// Room
// ---------------------------------------------------------------------------

/// The shard being filled, and how many files it holds.
pub struct Fill {
    pub shard: nat,
    pub used: nat,
}

/// Where a group of `count` files goes: into the shard being filled if there is
/// room for all of them, else into the next one.
pub open spec fn opened(f: Fill, count: nat) -> Fill {
    if f.used + count > SHARD_CAPACITY {
        Fill { shard: f.shard + 1, used: 0 }
    } else {
        f
    }
}

pub open spec fn filled(f: Fill, count: nat) -> Fill {
    let o = opened(f, count);
    Fill { shard: o.shard, used: o.used + count }
}

/// Where filling stands after the first `k` groups.
pub open spec fn fill_first(sizes: Seq<nat>, k: int) -> Fill
    decreases k,
{
    if k <= 0 {
        Fill { shard: 1, used: 0 }
    } else {
        filled(fill_first(sizes, k - 1), sizes[k - 1])
    }
}

pub open spec fn group_sizes(groups: Seq<GroupView>) -> Seq<nat> {
    groups.map_values(|g: GroupView| g.vpks.len())
}

/// The first of the first `k` mods that has more files than a directory takes.
pub open spec fn oversized(groups: Seq<GroupView>, k: int) -> Option<ErrorView>
    decreases k,
{
    if k <= 0 {
        None
    } else {
        match oversized(groups, k - 1) {
            Some(e) => Some(e),
            None => if groups[k - 1].vpks.len() > SHARD_CAPACITY {
                Some(
                    ErrorView::ModInvalid(
                        "Mod "@ + groups[k - 1].mod_id + " has "@ + dec(groups[k - 1].vpks.len())
                            + " VPK files and cannot fit in one addon folder"@,
                    ),
                )
            } else {
                None
            },
        }
    }
}

/// How many more shards `count` single files need.
pub open spec fn more_shards(f: Fill, count: nat) -> nat {
    let remaining = SHARD_CAPACITY - f.used;
    if count <= remaining {
        0
    } else {
        ((count - remaining + SHARD_CAPACITY - 1) / SHARD_CAPACITY as int) as nat
    }
}

/// Whether all files find room, or what is in the way.
pub open spec fn room_for(groups: Seq<GroupView>, orphans: nat) -> Result<(), ErrorView> {
    match oversized(groups, groups.len() as int) {
        Some(e) => Err(e),
        None => {
            let f = fill_first(group_sizes(groups), groups.len() as int);
            if f.shard + more_shards(f, orphans) > MAX_SHARDS {
                Err(
                    ErrorView::ModInvalid(
                        "Cannot reorder VPKs: all 10 addon folders would be exceeded"@,
                    ),
                )
            } else {
                Ok(())
            }
        },
    }
}

proof fn lemma_oversized_stops(groups: Seq<GroupView>, k: int, n: int)
    requires
        0 <= k <= n,
        oversized(groups, k) is Some,
    ensures
        oversized(groups, n) == oversized(groups, k),
    decreases n - k,
{
    if k < n {
        lemma_oversized_stops(groups, k, n - 1);
    }
}

fn validate_reorder_capacity(groups: &Vec<ShardAssignment>, orphan_count: usize) -> (r: Result<
    (),
    Error,
>)
    ensures
        crate::error::unit_result(r) == room_for(assignment_views(groups@), orphan_count as nat),
{
    let ghost gv = assignment_views(groups@);
    let ghost sizes = group_sizes(gv);
    let capacity: u128 = 99;
    let mut shard: u128 = 1;
    let mut used: u128 = 0;
    let mut i: usize = 0;
    while i < groups.len()
        invariant
            i <= groups@.len(),
            gv == assignment_views(groups@),
            sizes == group_sizes(gv),
            capacity == SHARD_CAPACITY,
            oversized(gv, i as int) is None,
            fill_first(sizes, i as int) == (Fill { shard: shard as nat, used: used as nat }),
            used <= capacity,
            1 <= shard <= i + 1,
        decreases groups@.len() - i,
    {
        assert(gv[i as int] == groups@[i as int]@);
        assert(sizes[i as int] == groups@[i as int].vpks@.len());
        let count: u128 = groups[i].vpks.len() as u128;
        if count > capacity {
            let mut m: String = "Mod ".to_owned();
            m.append(groups[i].mod_id.as_str());
            m.append(" has ");
            m.append(text::decimal(groups[i].vpks.len() as u64).as_str());
            m.append(" VPK files and cannot fit in one addon folder");
            proof {
                assert(oversized(gv, i + 1) is Some);
                lemma_oversized_stops(gv, i + 1, gv.len() as int);
            }
            return Err(Error::ModInvalid(m));
        }
        if used + count > capacity {
            shard = shard + 1;
            used = 0;
        }
        used = used + count;
        i = i + 1;
    }
    let remaining: u128 = capacity - used;
    let orphans: u128 = orphan_count as u128;
    let additional: u128 = if orphans <= remaining {
        0
    } else {
        (orphans - remaining + capacity - 1) / capacity
    };
    if shard + additional > 10 {
        return Err(
            Error::ModInvalid(
                "Cannot reorder VPKs: all 10 addon folders would be exceeded".to_owned(),
            ),
        );
    }
    Ok(())
}

// ---------------------------------------------------------------------------
// Placing
// ---------------------------------------------------------------------------

/// Where placing stands: the shard being filled, the files placed so far, the
/// steps that place them, and where each group went.
pub struct Placing {
    pub fill: Fill,
    pub at: nat,
    pub steps: Seq<StepView>,
    pub placed: Seq<(nat, Seq<Seq<char>>)>,
}

pub open spec fn shards_full_text() -> Seq<char> {
    "Cannot enable this many VPK files: all 10 addon shard folders are full (99 files each, ~990 total). Disable some mods first."@
}

/// The names that `count` files get in a shard that holds `used` files.
pub open spec fn next_names(used: nat, count: nat) -> Seq<Seq<char>> {
    Seq::new(count, |i: int| pak_name((used + i + 1) as nat))
}

/// The steps that give `count` staged files their names.
pub open spec fn place_steps(dir: PathView, staged: Seq<PathView>, at: nat, used: nat, count: nat) -> Seq<
    StepView,
> {
    seq![StepView::MakeDirs(dir)] + Seq::new(
        count,
        |i: int|
            StepView::Rename(staged[at + i], dir.push(pak_name((used + i + 1) as nat))),
    )
}

/// Placing a group of `count` files: they all go into one shard.
pub open spec fn group_placed(p: Placing, b: BaseView, staged: Seq<PathView>, count: nat) -> Result<
    Placing,
    ErrorView,
> {
    let o = opened(p.fill, count);
    if o.shard > MAX_SHARDS {
        Err(ErrorView::ModInvalid(shards_full_text()))
    } else {
        Ok(
            Placing {
                fill: filled(p.fill, count),
                at: p.at + count,
                steps: p.steps + place_steps(
                    shard_dir_of(b, o.shard),
                    staged,
                    p.at,
                    o.used,
                    count,
                ),
                placed: p.placed.push((o.shard, next_names(o.used, count))),
            },
        )
    }
}

pub open spec fn place_first(b: BaseView, staged: Seq<PathView>, sizes: Seq<nat>, k: int) -> Result<
    Placing,
    ErrorView,
>
    decreases k,
{
    if k <= 0 {
        Ok(
            Placing {
                fill: Fill { shard: 1, used: 0 },
                at: 0,
                steps: Seq::empty(),
                placed: Seq::empty(),
            },
        )
    } else {
        match place_first(b, staged, sizes, k - 1) {
            Err(e) => Err(e),
            Ok(p) => group_placed(p, b, staged, sizes[k - 1]),
        }
    }
}

proof fn lemma_place_stops(b: BaseView, staged: Seq<PathView>, sizes: Seq<nat>, k: int, n: int)
    requires
        0 <= k <= n,
        place_first(b, staged, sizes, k) is Err,
    ensures
        place_first(b, staged, sizes, n) == place_first(b, staged, sizes, k),
    decreases n - k,
{
    if k < n {
        lemma_place_stops(b, staged, sizes, k, n - 1);
    }
}

/// The sizes of the groups to place: those of the mods, then the files that no
/// mod claims, one by one.
pub open spec fn all_sizes(groups: Seq<GroupView>, orphans: nat) -> Seq<nat> {
    group_sizes(groups) + Seq::new(orphans, |i: int| 1nat)
}

/// Where the files to reorder stand.
pub open spec fn reorder_sources(b: BaseView, claims: Seq<ClaimView>, orphans: Seq<PathView>) -> Seq<
    PathView,
> {
    claims.map_values(|c: ClaimView| claim_path(b, c)) + orphans
}

/// Where a plan to set files aside puts them.
pub open spec fn step_targets(steps: Seq<StepView>) -> Seq<PathView> {
    steps.map_values(|s: StepView| s->Rename_1)
}

/// Where each mod's files are after placing.
pub open spec fn placements_of(
    groups: Seq<GroupView>,
    placed: Seq<(nat, Seq<Seq<char>>)>,
) -> Seq<GroupView> {
    Seq::new(
        groups.len(),
        |i: int|
            GroupView { mod_id: groups[i].mod_id, shard: placed[i].0, vpks: placed[i].1 },
    )
}

/// The plan of a reordering: set every enabled file aside, mods first, then give
/// them their places in order.
pub open spec fn reorder_plan(
    b: BaseView,
    stage: PathView,
    groups: Seq<GroupView>,
    orphans: Seq<PathView>,
) -> Result<(Seq<StepView>, Seq<GroupView>), ErrorView> {
    let sources = reorder_sources(b, all_claims(groups), orphans);
    match staging_plan(b, stage, sources, sources.len() as int) {
        Err(e) => Err(e),
        Ok(aside) => {
            let sizes = all_sizes(groups, orphans.len());
            match place_first(b, step_targets(aside), sizes, sizes.len() as int) {
                Err(e) => Err(e),
                Ok(p) => Ok((aside + p.steps, placements_of(groups, p.placed))),
            }
        },
    }
}

/// What a reordering does to a tree in which nothing is left over: the tree with
/// the files in place and the staging directory still there, and where the mods'
/// files went.
pub open spec fn reordered(d: DiskView, b: BaseView, groups: Seq<GroupView>) -> Result<
    (DiskView, Seq<GroupView>),
    ErrorView,
> {
    let claims = all_claims(groups);
    let stage = b.path.push(REORDER_STAGING_DIR@);
    let duplicates = duplicate_texts(claims);
    let missing = missing_claims(d, b, claims);
    if duplicates.len() > 0 {
        Err(
            ErrorView::ModInvalid(
                "Cannot reorder mods because VPK files are assigned to multiple mods: "@ + joined(
                    duplicates,
                    "; "@,
                ),
            ),
        )
    } else if missing.len() > 0 {
        Err(
            ErrorView::ModInvalid(
                "Cannot reorder mods because enabled VPK files are missing: "@ + joined(
                    missing,
                    ", "@,
                ),
            ),
        )
    } else {
        match orphans_to(d, b, claims, MAX_SHARDS as nat) {
            Err(e) => Err(e),
            Ok(orphans) => match room_for(groups, orphans.len()) {
                Err(e) => Err(e),
                Ok(_) => match claimed(d, stage) {
                    Err(e) => Err(e),
                    Ok(d1) => match reorder_plan(b, stage, groups, orphans) {
                        Err(e) => Err(e),
                        Ok((steps, placements)) => match run_plan(d1, steps) {
                            Err(e) => Err(e),
                            Ok(d2) => Ok((pruned_shards(d2, b), placements)),
                        },
                    },
                },
            },
        }
    }
}

/// A reordering up to its commit: what it leaves of an interrupted one, and what
/// it is about to do.
pub open spec fn reorder_staged(d: DiskView, p: PathView, groups: Seq<GroupView>) -> (
    DiskView,
    Result<(DiskView, Seq<GroupView>), ErrorView>,
) {
    if !exists_at(d, p) {
        (d, Err(ErrorView::Io(not_found_text(p))))
    } else {
        match base_of(p, true) {
            None => (d, Err(ErrorView::InvalidInput(bad_base_text(p)))),
            Some(b) => {
                let stage = p.push(REORDER_STAGING_DIR@);
                let (d1, r) = if exists_at(d, stage) {
                    recovered(d, b, stage, RecoveryMode::AvoidEnabledCollisions)
                } else {
                    (d, Ok(()))
                };
                match r {
                    Err(e) => (d1, Err(e)),
                    Ok(_) => (d1, reordered(d1, b, groups)),
                }
            },
        }
    }
}

/// A reordering and its commit.
pub open spec fn reorder_done(d: DiskView, p: PathView, groups: Seq<GroupView>) -> (
    DiskView,
    Result<Seq<GroupView>, ErrorView>,
) {
    let (d1, r) = reorder_staged(d, p, groups);
    let stage = p.push(REORDER_STAGING_DIR@);
    match r {
        Err(e) => (d1, Err(e)),
        Ok((d2, placements)) => (
            if is_dir_at(d2, stage) {
                without_tree(d2, stage)
            } else {
                d2
            },
            Ok(placements),
        ),
    }
}

struct Placer {
    shard: ShardIndex,
    used: u32,
    at: usize,
    steps: Vec<Step>,
    placed: Vec<(ShardIndex, Vec<String>)>,
}

spec fn placed_views(v: Seq<(ShardIndex, Vec<String>)>) -> Seq<(nat, Seq<Seq<char>>)> {
    v.map_values(|p: (ShardIndex, Vec<String>)| (p.0.number(), texts(p.1@)))
}

impl Placer {
    spec fn state(self) -> Placing {
        Placing {
            fill: Fill { shard: self.shard.number(), used: self.used as nat },
            at: self.at as nat,
            steps: step_views(self.steps@),
            placed: placed_views(self.placed@),
        }
    }

    /// Places a group of files in one shard.
    fn place(&mut self, base: &ProfileBase, staged: &Vec<TreePath>, count: usize) -> (r: Result<
        (),
        Error,
    >)
        requires
            old(self).used <= SHARD_CAPACITY,
            old(self).at + count <= staged@.len(),
            count <= SHARD_CAPACITY,
        ensures
            match r {
                Ok(_) => group_placed(
                    old(self).state(),
                    base@,
                    path_views(staged@),
                    count as nat,
                ) == Ok::<Placing, ErrorView>(final(self).state()) && final(self).used
                    <= SHARD_CAPACITY && final(self).at == old(self).at + count,
                Err(e) => group_placed(
                    old(self).state(),
                    base@,
                    path_views(staged@),
                    count as nat,
                ) == Err::<Placing, ErrorView>(e@),
            },
    {
        let ghost before = self.state();
        let ghost sv = path_views(staged@);
        let limit: usize = staged.len();
        let n: u32 = count as u32;
        if self.used + n > SHARD_CAPACITY {
            match ShardIndex::new(self.shard.get() + 1) {
                Ok(next) => {
                    self.shard = next;
                    self.used = 0;
                },
                Err(_) => {
                    return Err(
                        Error::ModInvalid(
                            "Cannot enable this many VPK files: all 10 addon shard folders are full (99 files each, ~990 total). Disable some mods first.".to_owned(),
                        ),
                    );
                },
            }
        }
        let ghost o = opened(before.fill, count as nat);
        assert(self.shard.number() == o.shard);
        let dir = base.shard_dir(self.shard);
        let first: u32 = self.used;
        let ghost plan = place_steps(dir@, sv, before.at, first as nat, count as nat);
        let ghost names_spec = next_names(first as nat, count as nat);
        let make = Step::MakeDirs(dir.duplicate());
        proof {
            staging::lemma_step_views_push(self.steps@, make);
        }
        self.steps.push(make);
        let mut names: Vec<String> = Vec::new();
        let mut i: usize = 0;
        proof {
            assert(before.steps.push(make@) =~= before.steps + plan.take(1));
            assert(texts(names@) =~= names_spec.take(0));
        }
        while i < count
            invariant
                i <= count <= SHARD_CAPACITY,
                sv == path_views(staged@),
                before.at + count <= limit == staged@.len(),
                self.at == before.at,
                self.used == first + i,
                first + count <= SHARD_CAPACITY,
                plan == place_steps(dir@, sv, before.at, first as nat, count as nat),
                names_spec == next_names(first as nat, count as nat),
                self.shard.number() == o.shard,
                placed_views(self.placed@) == before.placed,
                step_views(self.steps@) == before.steps + plan.take(i + 1),
                texts(names@) == names_spec.take(i as int),
            decreases count - i,
        {
            self.used = self.used + 1;
            let new_name = naming::enabled_vpk_name(self.used);
            let source = &staged[self.at + i];
            assert(sv[before.at + i] == source@);
            let step = Step::Rename(source.duplicate(), dir.child(new_name.as_str()));
            proof {
                staging::lemma_step_views_push(self.steps@, step);
                text::lemma_texts_push(names@, new_name);
                assert(plan[i + 1] == step@);
                assert(plan.take(i + 2) =~= plan.take(i + 1).push(plan[i + 1]));
                assert(before.steps + plan.take(i + 2) =~= (before.steps + plan.take(i + 1)).push(
                    step@,
                ));
                assert(names_spec[i as int] == new_name@);
                assert(names_spec.take(i + 1) =~= names_spec.take(i as int).push(
                    names_spec[i as int],
                ));
            }
            self.steps.push(step);
            names.push(new_name);
            i = i + 1;
        }
        proof {
            assert(plan.take(count + 1) =~= plan);
            assert(names_spec.take(count as int) =~= names_spec);
            assert(placed_views(self.placed@.push((self.shard, names))) =~= placed_views(
                self.placed@,
            ).push((self.shard.number(), texts(names@))));
        }
        self.at = self.at + count;
        self.placed.push((self.shard, names));
        Ok(())
    }
}

/// Where each step of a plan to set files aside puts its file.
fn list_targets(steps: &Vec<Step>) -> (r: Vec<TreePath>)
    requires
        forall|i: int| 0 <= i < steps@.len() ==> (#[trigger] steps@[i])@ is Rename,
    ensures
        path_views(r@) == step_targets(step_views(steps@)),
{
    let mut r: Vec<TreePath> = Vec::new();
    let mut i: usize = 0;
    while i < steps.len()
        invariant
            i <= steps@.len(),
            forall|j: int| 0 <= j < steps@.len() ==> (#[trigger] steps@[j])@ is Rename,
            r@.len() == i,
            forall|j: int| 0 <= j < i ==> (#[trigger] r@[j])@ == steps@[j]@->Rename_1,
        decreases steps@.len() - i,
    {
        assert(steps@[i as int]@ is Rename);
        match &steps[i] {
            Step::Rename(_, b) | Step::Copy(_, b) | Step::MakeDirs(b) => {
                r.push(b.duplicate());
            },
        }
        i = i + 1;
    }
    assert(path_views(r@) =~= step_targets(step_views(steps@)));
    r
}

pub proof fn lemma_staging_plan_shape(b: BaseView, stage: PathView, sources: Seq<PathView>, k: int)
    requires
        0 <= k <= sources.len(),
        staging_plan(b, stage, sources, k) is Ok,
    ensures
        staging_plan(b, stage, sources, k)->Ok_0.len() == k,
        forall|i: int|
            0 <= i < k ==> (#[trigger] staging_plan(b, stage, sources, k)->Ok_0[i]) is Rename
                && staging_plan(b, stage, sources, k)->Ok_0[i]->Rename_0 == sources[i]
                && staging::stage_target_of(b, stage, sources[i]) == Ok::<PathView, ErrorView>(
                staging_plan(b, stage, sources, k)->Ok_0[i]->Rename_1,
            ),
    decreases k,
{
    if k > 0 {
        lemma_staging_plan_shape(b, stage, sources, k - 1);
    }
}

pub proof fn lemma_claims_len(groups: Seq<GroupView>, k: int)
    requires
        0 <= k <= groups.len(),
    ensures
        claims_of(groups, k).len() == total_size(group_sizes(groups), k),
    decreases k,
{
    if k > 0 {
        lemma_claims_len(groups, k - 1);
    }
}

/// The number of files in the first `k` groups.
pub open spec fn total_size(sizes: Seq<nat>, k: int) -> nat
    decreases k,
{
    if k <= 0 {
        0
    } else {
        total_size(sizes, k - 1) + sizes[k - 1]
    }
}

proof fn lemma_total_monotone(sizes: Seq<nat>, k: int, n: int)
    requires
        0 <= k <= n,
    ensures
        total_size(sizes, k) <= total_size(sizes, n),
    decreases n - k,
{
    if k < n {
        lemma_total_monotone(sizes, k, n - 1);
    }
}

pub proof fn lemma_all_sizes_total(groups: Seq<GroupView>, orphans: nat, k: int)
    requires
        0 <= k <= groups.len() + orphans,
    ensures
        k <= groups.len() ==> total_size(all_sizes(groups, orphans), k) == total_size(
            group_sizes(groups),
            k,
        ),
        k >= groups.len() ==> total_size(all_sizes(groups, orphans), k) == total_size(
            group_sizes(groups),
            groups.len() as int,
        ) + (k - groups.len()),
    decreases k,
{
    if k > 0 {
        lemma_all_sizes_total(groups, orphans, k - 1);
    }
}

pub proof fn lemma_not_oversized(groups: Seq<GroupView>, k: int, i: int)
    requires
        0 <= i < k <= groups.len(),
        oversized(groups, k) is None,
    ensures
        groups[i].vpks.len() <= SHARD_CAPACITY,
    decreases k,
{
    if i < k - 1 {
        lemma_not_oversized(groups, k - 1, i);
    }
}

/// Makes the plan of a reordering.
fn plan_reorder(
    base: &ProfileBase,
    stage: &TreePath,
    groups: &Vec<ShardAssignment>,
    claims: &Vec<Claim>,
    orphans: &Vec<TreePath>,
) -> (r: Result<(Vec<Step>, Vec<ShardPlacement>), Error>)
    requires
        claim_views(claims@) == all_claims(assignment_views(groups@)),
        oversized(assignment_views(groups@), groups@.len() as int) is None,
    ensures
        match r {
            Ok((steps, placements)) => reorder_plan(
                base@,
                stage@,
                assignment_views(groups@),
                path_views(orphans@),
            ) == Ok::<(Seq<StepView>, Seq<GroupView>), ErrorView>(
                (step_views(steps@), placement_views(placements@)),
            ),
            Err(e) => reorder_plan(
                base@,
                stage@,
                assignment_views(groups@),
                path_views(orphans@),
            ) == Err::<(Seq<StepView>, Seq<GroupView>), ErrorView>(e@),
        },
{
    let ghost gv = assignment_views(groups@);
    let ghost cv = claim_views(claims@);
    let ghost ov = path_views(orphans@);
    let mut sources: Vec<TreePath> = Vec::new();
    let mut i: usize = 0;
    while i < claims.len()
        invariant
            i <= claims@.len(),
            cv == claim_views(claims@),
            sources@.len() == i,
            forall|j: int| 0 <= j < i ==> (#[trigger] sources@[j])@ == claim_path(base@, cv[j]),
        decreases claims@.len() - i,
    {
        let c = &claims[i];
        assert(cv[i as int] == c@);
        sources.push(base.shard_dir(c.shard).join(c.name.as_str()));
        i = i + 1;
    }
    let mut j: usize = 0;
    while j < orphans.len()
        invariant
            j <= orphans@.len(),
            sources@.len() == claims@.len() + j,
            cv == claim_views(claims@),
            ov == path_views(orphans@),
            forall|k: int|
                0 <= k < claims@.len() ==> (#[trigger] sources@[k])@ == claim_path(base@, cv[k]),
            forall|k: int|
                claims@.len() <= k < claims@.len() + j ==> (#[trigger] sources@[k])@ == ov[k
                    - claims@.len()],
        decreases orphans@.len() - j,
    {
        assert(ov[j as int] == orphans@[j as int]@);
        sources.push(orphans[j].duplicate());
        j = j + 1;
    }
    let ghost src = reorder_sources(base@, cv, ov);
    assert(path_views(sources@) =~= src);
    let mut steps = staging::plan_staging(base, stage, &sources)?;
    let ghost aside = step_views(steps@);
    proof {
        lemma_staging_plan_shape(base@, stage@, src, src.len() as int);
        assert forall|k: int| 0 <= k < steps@.len() implies (#[trigger] steps@[k])@ is Rename by {
            assert(aside[k] == steps@[k]@);
        }
    }
    let staged = list_targets(&steps);
    let ghost sv = step_targets(aside);
    let ghost sizes = all_sizes(gv, ov.len());
    let mut placer = Placer {
        shard: ShardIndex::first(),
        used: 0,
        at: 0,
        steps: Vec::new(),
        placed: Vec::new(),
    };
    proof {
        assert(step_views(placer.steps@) =~= Seq::<StepView>::empty());
        assert(placed_views(placer.placed@) =~= Seq::<(nat, Seq<Seq<char>>)>::empty());
        lemma_claims_len(gv, gv.len() as int);
        lemma_all_sizes_total(gv, ov.len(), sizes.len() as int);
        assert(staged@.len() == sv.len() == src.len() == total_size(sizes, sizes.len() as int));
    }
    let total: usize = groups.len();
    let mut k: usize = 0;
    while k < total
        invariant
            k <= total == groups@.len(),
            gv == assignment_views(groups@),
            sizes == all_sizes(gv, ov.len()),
            sv == path_views(staged@),
            gv == assignment_views(groups@),
            ov == path_views(orphans@),
            src == reorder_sources(base@, all_claims(gv), ov),
            staging_plan(base@, stage@, src, src.len() as int) == Ok::<Seq<StepView>, ErrorView>(
                aside,
            ),
            sv == step_targets(aside),
            oversized(gv, gv.len() as int) is None,
            staged@.len() == total_size(sizes, sizes.len() as int),
            placer.used <= SHARD_CAPACITY,
            placer.at == total_size(sizes, k as int),
            place_first(base@, sv, sizes, k as int) == Ok::<Placing, ErrorView>(placer.state()),
        decreases total - k,
    {
        assert(gv[k as int] == groups@[k as int]@);
        assert(sizes[k as int] == groups@[k as int].vpks@.len());
        proof {
            lemma_not_oversized(gv, gv.len() as int, k as int);
            lemma_total_monotone(sizes, k + 1, sizes.len() as int);
        }
        match placer.place(base, &staged, groups[k].vpks.len()) {
            Ok(_) => {},
            Err(e) => {
                proof {
                    assert(place_first(base@, sv, sizes, k + 1) is Err);
                    lemma_place_stops(base@, sv, sizes, k + 1, sizes.len() as int);
                }
                return Err(e);
            },
        }
        k = k + 1;
    }
    let extra: usize = orphans.len();
    let mut q: usize = 0;
    while q < extra
        invariant
            q <= extra == ov.len(),
            total == gv.len(),
            sizes == all_sizes(gv, ov.len()),
            sv == path_views(staged@),
            gv == assignment_views(groups@),
            ov == path_views(orphans@),
            src == reorder_sources(base@, all_claims(gv), ov),
            staging_plan(base@, stage@, src, src.len() as int) == Ok::<Seq<StepView>, ErrorView>(
                aside,
            ),
            sv == step_targets(aside),
            staged@.len() == total_size(sizes, sizes.len() as int),
            placer.used <= SHARD_CAPACITY,
            placer.at == total_size(sizes, total + q),
            place_first(base@, sv, sizes, total + q) == Ok::<Placing, ErrorView>(placer.state()),
        decreases extra - q,
    {
        assert(sizes[total + q] == 1);
        proof {
            lemma_total_monotone(sizes, total + q + 1, sizes.len() as int);
        }
        match placer.place(base, &staged, 1) {
            Ok(_) => {},
            Err(e) => {
                proof {
                    assert(place_first(base@, sv, sizes, total + q + 1) is Err);
                    lemma_place_stops(base@, sv, sizes, total + q + 1, sizes.len() as int);
                }
                return Err(e);
            },
        }
        q = q + 1;
    }
    let ghost end = placer.state();
    proof {
        lemma_placed_len(base@, sv, sizes, sizes.len() as int);
    }
    let mut place_list = placer.steps;
    let placed = placer.placed;
    let mut placements: Vec<ShardPlacement> = Vec::new();
    let mut t: usize = 0;
    while t < total
        invariant
            t <= total == groups@.len(),
            gv == assignment_views(groups@),
            placed@.len() >= total,
            placements@.len() == t,
            forall|x: int|
                0 <= x < t ==> (#[trigger] placements@[x])@ == (GroupView {
                    mod_id: gv[x].mod_id,
                    shard: placed@[x].0.number(),
                    vpks: texts(placed@[x].1@),
                }),
        decreases total - t,
    {
        assert(gv[t as int] == groups@[t as int]@);
        placements.push(
            ShardPlacement {
                mod_id: groups[t].mod_id.clone(),
                shard: placed[t].0,
                vpks: text::copy_texts(&placed[t].1),
            },
        );
        t = t + 1;
    }
    proof {
        let want = placements_of(gv, end.placed);
        assert forall|x: int| 0 <= x < want.len() implies placement_views(placements@)[x]
            == want[x] by {
            assert(end.placed[x] == (placed@[x].0.number(), texts(placed@[x].1@)));
            assert(placements@[x]@ == want[x]);
        }
        assert(placement_views(placements@) =~= want);
    }
    let ghost tail = step_views(place_list@);
    steps.append(&mut place_list);
    assert(step_views(steps@) =~= aside + tail);
    Ok((steps, placements))
}

pub proof fn lemma_placed_len(b: BaseView, staged: Seq<PathView>, sizes: Seq<nat>, k: int)
    requires
        0 <= k <= sizes.len(),
        place_first(b, staged, sizes, k) is Ok,
    ensures
        place_first(b, staged, sizes, k)->Ok_0.placed.len() == k,
        place_first(b, staged, sizes, k)->Ok_0.at == total_size(sizes, k),
        place_first(b, staged, sizes, k)->Ok_0.fill == fill_first(sizes, k),
    decreases k,
{
    if k > 0 {
        lemma_placed_len(b, staged, sizes, k - 1);
    }
}

impl VpkManager {
    /// The reordering of a tree in which nothing is left over.
    fn reorder_clean(disk: &Disk, base: &ProfileBase, groups: &Vec<ShardAssignment>) -> (r: Result<
        PendingVpkOperation<Vec<ShardPlacement>>,
        Error,
    >)
        ensures
            match r {
                Ok(p) => reordered(disk@, base@, assignment_views(groups@)) == Ok::<
                    (DiskView, Seq<GroupView>),
                    ErrorView,
                >((p.work@, placement_views(p.value@))) && undoable(*disk, p.work)
                    && p.staging is Some && p.staging->0@ == base@.path.push(REORDER_STAGING_DIR@),
                Err(e) => reordered(disk@, base@, assignment_views(groups@)) == Err::<
                    (DiskView, Seq<GroupView>),
                    ErrorView,
                >(e@),
            },
    {
        let claims = list_claims(groups);
        let stage = base.path().child(REORDER_STAGING_DIR);
        let duplicates = list_duplicates(&claims);
        if duplicates.len() > 0 {
            let mut m: String =
                "Cannot reorder mods because VPK files are assigned to multiple mods: ".to_owned();
            m.append(text::join_texts(&duplicates, "; ").as_str());
            return Err(Error::ModInvalid(m));
        }
        let missing = list_missing_claims(disk, base, &claims);
        if missing.len() > 0 {
            let mut m: String =
                "Cannot reorder mods because enabled VPK files are missing: ".to_owned();
            m.append(text::join_texts(&missing, ", ").as_str());
            return Err(Error::ModInvalid(m));
        }
        let orphans = find_orphaned_enabled_vpks(disk, base, &claims)?;
        assert(path_views(orphans@).len() == orphans@.len());
        validate_reorder_capacity(groups, orphans.len())?;
        let mut work = disk.duplicate();
        staging::claim(&mut work, &stage)?;
        assert(assignment_views(groups@).len() == groups@.len());
        let (steps, placements) = plan_reorder(base, &stage, groups, &claims, &orphans)?;
        staging::carry_out(&mut work, &steps)?;
        VpkManager::prune_empty_shard_dirs(&mut work, base);
        Ok(PendingVpkOperation { value: placements, work, staging: Some(stage) })
    }

    /// Prepares a reordering of the enabled VPKs: the mods are packed into the
    /// shards in order and never split, and files that no mod claims follow.
    pub fn stage_reorder_vpks_sharded(
        &self,
        disk: &mut Disk,
        ordered_mods: &Vec<ShardAssignment>,
        base: &TreePath,
    ) -> (r: Result<PendingVpkOperation<Vec<ShardPlacement>>, Error>)
        ensures
            ordered(*old(disk), *final(disk)),
            match r {
                Ok(p) => reorder_staged(old(disk)@, base@, assignment_views(ordered_mods@)) == (
                    final(disk)@,
                    Ok::<(DiskView, Seq<GroupView>), ErrorView>(
                        (p.work@, placement_views(p.value@)),
                    ),
                ) && rested(*old(disk), *final(disk)) && undoable(*final(disk), p.work) && p.staging is Some && p.staging->0@
                    == base@.push(REORDER_STAGING_DIR@),
                Err(e) => reorder_staged(old(disk)@, base@, assignment_views(ordered_mods@)) == (
                    final(disk)@,
                    Err::<(DiskView, Seq<GroupView>), ErrorView>(e@),
                ),
            },
    {
        if !disk.has(base) {
            return Err(copying::addons_not_found(base));
        }
        let profile = ProfileBase::new(base)?;
        proof {
            crate::shard::lemma_base_ok(base@, true);
        }
        let temp_dir = base.child(REORDER_STAGING_DIR);
        if disk.has(&temp_dir) {
            staging::recover_staging_directory(
                disk,
                &profile,
                &temp_dir,
                RecoveryMode::AvoidEnabledCollisions,
            )?;
        }
        disk.settle();
        VpkManager::reorder_clean(disk, &profile, ordered_mods)
    }

    /// Reorders the enabled VPKs over the shards.
    pub fn reorder_vpks_sharded(
        &self,
        disk: &mut Disk,
        ordered_mods: &Vec<ShardAssignment>,
        base: &TreePath,
    ) -> (r: Result<Vec<ShardPlacement>, Error>)
        ensures
            ordered(*old(disk), *final(disk)),
            match r {
                Ok(v) => reorder_done(old(disk)@, base@, assignment_views(ordered_mods@)) == (
                    final(disk)@,
                    Ok::<Seq<GroupView>, ErrorView>(placement_views(v@)),
                ) && went(
                    *old(disk),
                    reorder_staged(old(disk)@, base@, assignment_views(ordered_mods@)).0,
                    final(disk)@,
                    *final(disk),
                ),
                Err(e) => reorder_done(old(disk)@, base@, assignment_views(ordered_mods@)) == (
                    final(disk)@,
                    Err::<Seq<GroupView>, ErrorView>(e@),
                ),
            },
    {
        let pending = self.stage_reorder_vpks_sharded(disk, ordered_mods, base)?;
        Ok(pending.commit(disk))
    }
}

} // verus!
