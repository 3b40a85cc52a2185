//! The mods of a game: where they are, what is enabled, and in which order.
use crate::{path, text};
use crate::error::{Error, ErrorView};
use crate::file_tree::{opt_tree, FileTreeView, ModFileTree};
use crate::path::{plain_name, PathView, TreePath};
use crate::shard::{bad_base_text, base_of, BaseView, ProfileBase};
use crate::table::{Model, Table};
use crate::text::{opt_text, texts};
use vstd::prelude::*;
use vstd::string::*;

pub mod gameinfo;
pub mod hydration;
pub mod known;
pub mod layout;
pub mod lifecycle;
pub mod ordered;
pub mod ordering;
pub mod places;
pub mod recording;
pub mod refusals;
pub mod removing;
pub mod replacement;
pub mod reorder;
pub mod requested_order;
pub mod resolving;
pub mod variants;

verus! {

/// A mod as the manager knows it.
#[derive(Debug, Clone, PartialEq, Eq)]
pub struct Mod {
    pub id: String,
    pub name: String,
    pub is_map: bool,
    pub installed_vpks: Vec<String>,
    pub file_tree: Option<ModFileTree>,
    pub install_order: Option<u32>,
    pub original_vpk_names: Vec<String>,
}

pub struct ModView {
    pub id: Seq<char>,
    pub name: Seq<char>,
    pub is_map: bool,
    pub installed: Seq<Seq<char>>,
    pub file_tree: Option<FileTreeView>,
    pub install_order: Option<u32>,
    pub original: Seq<Seq<char>>,
}

impl View for Mod {
    type V = ModView;

    open spec fn view(&self) -> ModView {
        ModView {
            id: self.id@,
            name: self.name@,
            is_map: self.is_map,
            installed: texts(self.installed_vpks@),
            file_tree: opt_tree(self.file_tree),
            install_order: self.install_order,
            original: texts(self.original_vpk_names@),
        }
    }
}

impl Model for Mod {
    fn copy_value(&self) -> (r: Self) {
        Mod {
            id: self.id.clone(),
            name: self.name.clone(),
            is_map: self.is_map,
            installed_vpks: text::copy_texts(&self.installed_vpks),
            file_tree: match &self.file_tree {
                Some(t) => Some(t.duplicate()),
                None => None,
            },
            install_order: self.install_order,
            original_vpk_names: text::copy_texts(&self.original_vpk_names),
        }
    }
}

/// The mods that are known, by id.
pub type RepoView = Map<Seq<char>, ModView>;

/// Manages the mods of a game.
pub struct ModManager {
    pub game_path: Option<TreePath>,
    /// Where the files of downloaded and local mods are kept.
    pub mods_store: TreePath,
    pub mod_repository: Table<String, Mod>,
}

pub struct ManagerView {
    pub game_path: Option<PathView>,
    pub mods_store: PathView,
    pub repo: RepoView,
}

impl View for ModManager {
    type V = ManagerView;

    open spec fn view(&self) -> ManagerView {
        ManagerView {
            game_path: match self.game_path {
                Some(p) => Some(p@),
                None => None,
            },
            mods_store: self.mods_store@,
            repo: self.mod_repository@,
        }
    }
}

pub open spec fn with_repo(m: ManagerView, repo: RepoView) -> ManagerView {
    ManagerView { game_path: m.game_path, mods_store: m.mods_store, repo }
}

/// The `addons` directory of a game.
pub open spec fn addons_root(game: PathView) -> PathView {
    game.push("game"@).push("citadel"@).push("addons"@)
}

/// A folder name that stands for one directory and nothing else.
pub open spec fn safe_folder(f: Seq<char>) -> bool {
    plain_name(f) && !f.contains('\\')
}

/// The base of a profile, or of the default one.
pub open spec fn profile_base(game: Option<PathView>, folder: Option<Seq<char>>) -> Result<
    BaseView,
    ErrorView,
> {
    match game {
        None => Err(ErrorView::GamePathNotSet),
        Some(g) => {
            let p = match folder {
                Some(f) => addons_root(g).push(f),
                None => addons_root(g),
            };
            if folder is Some && !safe_folder(folder->0) {
                Err(ErrorView::InvalidInput("Invalid profile folder: "@ + folder->0))
            } else {
                match base_of(p, true) {
                    Some(b) => Ok(b),
                    None => Err(ErrorView::InvalidInput(bad_base_text(p))),
                }
            }
        },
    }
}

pub open spec fn base_result(r: Result<ProfileBase, Error>) -> Result<BaseView, ErrorView> {
    match r {
        Ok(b) => Ok(b@),
        Err(e) => Err(e@),
    }
}

/// Whether a folder name stands for one directory and nothing else.
pub fn is_safe_profile_folder(f: &str) -> (r: bool)
    ensures
        r == safe_folder(f@),
{
    proof {
        reveal_strlit("\\");
        text::lemma_find_from(f@, "\\"@, 0);
        if f@.contains('\\') {
            let a = choose|a: int| 0 <= a < f@.len() && f@[a] == '\\';
            assert(f@.subrange(a, a + 1) =~= "\\"@);
            assert(text::occurs_at(f@, "\\"@, a));
        }
        if text::contains_text(f@, "\\"@) {
            let a = choose|a: int| text::occurs_at(f@, "\\"@, a);
            assert(f@.subrange(a, a + 1)[0] == f@[a]);
        }
    }
    path::is_plain_name(f) && !text::has_text(f, "\\")
}

/// The `addons` directory of a game.
pub fn addons_root_of(game: &TreePath) -> (r: TreePath)
    ensures
        r@ == addons_root(game@),
{
    game.child("game").child("citadel").child("addons")
}

impl ModManager {
    pub fn new(mods_store: TreePath) -> (r: ModManager)
        ensures
            r@ == (ManagerView {
                game_path: None,
                mods_store: mods_store@,
                repo: Map::<Seq<char>, ModView>::empty(),
            }),
    {
        ModManager { game_path: None, mods_store, mod_repository: Table::new() }
    }

    /// The base of a profile, or of the default one.
    pub fn get_addons_path(&self, profile_folder: &Option<String>) -> (r: Result<
        ProfileBase,
        Error,
    >)
        ensures
            base_result(r) == profile_base(self@.game_path, opt_text(*profile_folder)),
    {
        let root = match &self.game_path {
            None => {
                return Err(Error::GamePathNotSet);
            },
            Some(game) => addons_root_of(game),
        };
        match profile_folder {
            Some(folder) => {
                if !is_safe_profile_folder(folder.as_str()) {
                    let mut m: String = "Invalid profile folder: ".to_owned();
                    m.append(folder.as_str());
                    return Err(Error::InvalidInput(m));
                }
                ProfileBase::new(&root.child(folder.as_str()))
            },
            None => ProfileBase::new(&root),
        }
    }

    /// A mod that is known.
    pub fn get_mod(&self, mod_id: &str) -> (r: Option<Mod>)
        ensures
            match r {
                Some(m) => self@.repo.contains_key(mod_id@) && m@ == self@.repo[mod_id@],
                None => !self@.repo.contains_key(mod_id@),
            },
    {
        match self.mod_repository.get(&mod_id.to_owned()) {
            Some(m) => Some(m.copy_value()),
            None => None,
        }
    }

    /// Records a mod under its id.
    pub fn add_mod(&mut self, deadlock_mod: Mod)
        ensures
            final(self)@ == with_repo(
                old(self)@,
                old(self)@.repo.insert(deadlock_mod@.id, deadlock_mod@),
            ),
    {
        self.mod_repository.insert(deadlock_mod.id.clone(), deadlock_mod);
    }

    /// Forgets a mod.
    pub fn forget_mod(&mut self, mod_id: &str)
        ensures
            final(self)@ == with_repo(old(self)@, old(self)@.repo.remove(mod_id@)),
    {
        self.mod_repository.remove(&mod_id.to_owned());
    }
}

} // verus!
