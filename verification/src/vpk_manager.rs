//! Moving VPK files about: enabling, disabling, clearing, replacing, reordering.
use crate::shard::{BaseView, ProfileBase, ShardIndex};
use crate::text::texts;
use vstd::prelude::*;

pub mod copying;
pub mod disabling;
pub mod enabling;
pub mod moves;
pub mod naming;
pub mod operations;
pub mod packing;
pub mod refusals;
pub mod reorder;
pub mod reordering;
pub mod replacing;
pub mod setting_aside;
pub mod staging;
pub mod swap;
pub mod unclaimed;

verus! {

/// Where a mod's enabled VPKs are after a reordering.
#[derive(Debug, Clone, PartialEq, Eq)]
pub struct ShardPlacement {
    pub mod_id: String,
    pub shard: ShardIndex,
    /// The new names within that shard, in order.
    pub vpks: Vec<String>,
}

/// Where a mod's enabled VPKs are before a reordering.
#[derive(Debug, Clone, PartialEq, Eq)]
pub struct ShardAssignment {
    pub mod_id: String,
    pub shard: ShardIndex,
    pub vpks: Vec<String>,
}

/// A mod with the VPKs it has in a shard.
pub struct GroupView {
    pub mod_id: Seq<char>,
    pub shard: nat,
    pub vpks: Seq<Seq<char>>,
}

impl View for ShardPlacement {
    type V = GroupView;

    open spec fn view(&self) -> GroupView {
        GroupView { mod_id: self.mod_id@, shard: self.shard.number(), vpks: texts(self.vpks@) }
    }
}

impl View for ShardAssignment {
    type V = GroupView;

    open spec fn view(&self) -> GroupView {
        GroupView { mod_id: self.mod_id@, shard: self.shard.number(), vpks: texts(self.vpks@) }
    }
}

/// A change of the variant of a mod that is enabled.
pub struct SwapRequest<'a> {
    pub base: &'a ProfileBase,
    pub current_shard: ShardIndex,
    pub target_shard: ShardIndex,
    pub mod_id: &'a str,
    pub current_installed_vpks: &'a Vec<String>,
    pub current_original_names: &'a Vec<String>,
    pub selected_original_names: &'a Vec<String>,
}

pub struct SwapView {
    pub base: BaseView,
    pub current_shard: nat,
    pub target_shard: nat,
    pub mod_id: Seq<char>,
    pub installed: Seq<Seq<char>>,
    pub original: Seq<Seq<char>>,
    pub selected: Seq<Seq<char>>,
}

impl<'a> View for SwapRequest<'a> {
    type V = SwapView;

    open spec fn view(&self) -> SwapView {
        SwapView {
            base: self.base@,
            current_shard: self.current_shard.number(),
            target_shard: self.target_shard.number(),
            mod_id: self.mod_id@,
            installed: texts(self.current_installed_vpks@),
            original: texts(self.current_original_names@),
            selected: texts(self.selected_original_names@),
        }
    }
}

/// What to do about enabled VPKs that are recorded but missing.
#[derive(Debug, Clone, Copy, PartialEq, Eq, Structural)]
pub enum MissingVpkPolicy {
    /// Fail if any is missing.
    Strict,
    /// Go on with those that are there.
    Reconcile,
}

/// Moves VPK files about.
pub struct VpkManager {}

impl VpkManager {
    pub fn new() -> (r: VpkManager) {
        VpkManager {  }
    }
}

impl Default for VpkManager {
    fn default() -> (r: Self) {
        VpkManager {  }
    }
}

} // verus!
