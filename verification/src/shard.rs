//! Addon VPK sharding.
//!
//! The engine loads at most 99 `pak##_dir.vpk` files from one search-path
//! directory. A profile that holds more is spread over the sibling directories
//! `citadel/addons`, `citadel/addons2`, and so on, each with a search path of its
//! own:
//!   - shard 1 of `profile_x` is `citadel/addons/profile_x`;
//!   - shard `k >= 2` is `citadel/addons<k>/profile_x`.
//!
//! Disabled files (`{mod_id}_*.vpk`) and the manifest stay in shard 1.
use crate::{path, text};
use crate::error::{Error, ErrorView};
use crate::path::{base_name, path_join, path_text, plain_name, PathView, TreePath};
use crate::text::{
    dec, opt_text, parse_up_to, pieces, replaced, split_once_spec, starts_with,
    strip_prefix_spec, strip_suffix_spec,
};
use vstd::prelude::*;
use vstd::string::*;

verus! {

/// Most enabled VPKs that the engine loads from one directory.
pub const SHARD_CAPACITY: u32 = 99;

/// Most shard roots of one profile.
pub const MAX_SHARDS: u32 = 10;

pub const CLEAR_STAGING_DIR: &'static str = ".dmm-clear";

pub const REORDER_STAGING_DIR: &'static str = ".dmm-reorder";

pub const UPDATE_STAGING_PREFIX: &'static str = ".dmm-update-";

pub const DELETE_STAGING_PREFIX: &'static str = ".dmm-deleting-";

// ---------------------------------------------------------------------------
// Shard indexes
// ---------------------------------------------------------------------------

/// A shard's number, from 1 to `MAX_SHARDS`.
#[derive(Clone, Copy, Debug, PartialEq, Eq, PartialOrd, Ord, Hash, Structural)]
pub struct ShardIndex(u32);

pub open spec fn valid_shard(n: nat) -> bool {
    1 <= n <= MAX_SHARDS
}

/// The name of a shard's root directory.
pub open spec fn root_of(n: nat) -> Seq<char> {
    if n <= 1 {
        "addons"@
    } else {
        "addons"@ + dec(n)
    }
}

/// The search path of a shard, with a profile folder or without.
pub open spec fn search_path_of(n: nat, folder: Option<Seq<char>>) -> Seq<char> {
    match folder {
        Some(f) => "citadel/"@ + root_of(n) + "/"@ + f,
        None => "citadel/"@ + root_of(n),
    }
}

/// The shard whose root directory has this name. The number behind `addons` is
/// read as any number is, so `addons02` names shard 2 too; shard 1 is `addons`
/// alone.
pub open spec fn shard_of_root(root: Seq<char>) -> Option<nat> {
    if root == "addons"@ {
        Some(1)
    } else {
        match strip_prefix_spec(root, "addons"@) {
            Some(rest) => match parse_up_to(rest, u32::MAX as nat) {
                Some(n) => if 2 <= n <= MAX_SHARDS {
                    Some(n)
                } else {
                    None
                },
                None => None,
            },
            None => None,
        }
    }
}

pub open spec fn bad_shard_text(value: nat) -> Seq<char> {
    "shard index "@ + dec(value) + " is outside the supported range 1..=10"@
}

/// The number of an optional shard.
pub open spec fn opt_number(s: Option<ShardIndex>) -> Option<nat> {
    match s {
        Some(i) => Some(i.number()),
        None => None,
    }
}

impl ShardIndex {
    #[verifier::type_invariant]
    spec fn in_range(self) -> bool {
        valid_shard(self.0 as nat)
    }

    pub closed spec fn number(self) -> nat {
        self.0 as nat
    }

    /// The profile's base directory.
    pub fn first() -> (r: ShardIndex)
        ensures
            r.number() == 1,
    {
        ShardIndex(1)
    }

    pub fn new(value: u32) -> (r: Result<ShardIndex, Error>)
        ensures
            match r {
                Ok(s) => valid_shard(value as nat) && s.number() == value,
                Err(e) => !valid_shard(value as nat) && e@ == ErrorView::InvalidInput(
                    bad_shard_text(value as nat),
                ),
            },
    {
        match ShardIndex::try_from_number(value) {
            Ok(s) => Ok(s),
            Err(message) => Err(Error::InvalidInput(message)),
        }
    }

    /// The shard with this number, or what is wrong with it.
    pub fn try_from_number(value: u32) -> (r: Result<ShardIndex, String>)
        ensures
            match r {
                Ok(s) => valid_shard(value as nat) && s.number() == value,
                Err(m) => !valid_shard(value as nat) && m@ == bad_shard_text(value as nat),
            },
    {
        if 1 <= value && value <= MAX_SHARDS {
            Ok(ShardIndex(value))
        } else {
            let mut m: String = "shard index ".to_owned();
            m.append(text::decimal(value as u64).as_str());
            m.append(" is outside the supported range 1..=10");
            Err(m)
        }
    }

    pub fn get(self) -> (r: u32)
        ensures
            r == self.number(),
            valid_shard(self.number()),
    {
        proof {
            use_type_invariant(&self);
        }
        self.0
    }

    /// Whether two indexes are the same shard.
    pub fn is(self, other: ShardIndex) -> (r: bool)
        ensures
            r == (self.number() == other.number()),
    {
        self.0 == other.0
    }

    /// The shard whose root directory has this name.
    pub fn from_root_name(root: &str) -> (r: Option<ShardIndex>)
        ensures
            opt_number(r) == shard_of_root(root@),
    {
        if text::same_text(root, "addons") {
            return Some(ShardIndex(1));
        }
        match text::without_prefix(root, "addons") {
            Some(rest) => match text::parse_u32(rest.as_str()) {
                Some(n) => if 2 <= n && n <= MAX_SHARDS {
                    Some(ShardIndex(n))
                } else {
                    None
                },
                None => None,
            },
            None => None,
        }
    }

    /// `addons` for shard 1, `addonsN` otherwise.
    pub fn root_name(self) -> (r: String)
        ensures
            r@ == root_of(self.number()),
            valid_shard(self.number()),
    {
        proof {
            use_type_invariant(&self);
        }
        let mut r: String = "addons".to_owned();
        if self.0 > 1 {
            r.append(text::decimal(self.0 as u64).as_str());
        }
        r
    }

    /// The search path of this shard.
    pub fn search_path(self, profile_folder: &Option<String>) -> (r: String)
        ensures
            r@ == search_path_of(self.number(), opt_text(*profile_folder)),
    {
        let mut r: String = "citadel/".to_owned();
        r.append(self.root_name().as_str());
        match profile_folder {
            Some(profile) => {
                r.append("/");
                r.append(profile.as_str());
            },
            None => {},
        }
        r
    }
}

pub open spec fn numbers(v: Seq<ShardIndex>) -> Seq<nat> {
    v.map_values(|s: ShardIndex| s.number())
}

/// Every shard index, ascending.
pub fn all_shards() -> (r: Vec<ShardIndex>)
    ensures
        numbers(r@) == Seq::new(MAX_SHARDS as nat, |i: int| (i + 1) as nat),
{
    let mut r: Vec<ShardIndex> = Vec::new();
    let mut n: u32 = 1;
    while n <= MAX_SHARDS
        invariant
            1 <= n <= MAX_SHARDS + 1,
            r@.len() == n - 1,
            forall|i: int| 0 <= i < r@.len() ==> (#[trigger] r@[i]).number() == i + 1,
        decreases MAX_SHARDS + 1 - n,
    {
        r.push(ShardIndex(n));
        n = n + 1;
    }
    assert(numbers(r@) =~= Seq::new(MAX_SHARDS as nat, |i: int| (i + 1) as nat));
    r
}

/// Reading a shard's root name gives the shard back.
pub proof fn law_root_names_round_trip(n: nat)
    requires
        valid_shard(n),
    ensures
        shard_of_root(root_of(n)) == Some(n),
        plain_name(root_of(n)),
{
    reveal_strlit("addons");
    reveal_strlit(".");
    reveal_strlit("..");
    assert(!"addons"@.contains('/'));
    if n > 1 {
        text::lemma_dec(n);
        text::lemma_parse_dec(n, u32::MAX as nat);
        let r = root_of(n);
        assert(r.take(6) =~= "addons"@);
        assert(r.skip(6) =~= dec(n));
        assert(r.len() > 6);
        if r.contains('/') {
            let a = choose|a: int| 0 <= a < r.len() && r[a] == '/';
            if a < 6 {
                assert("addons"@[a] == '/');
            } else {
                assert(dec(n)[a - 6] == '/');
            }
        }
    }
}

/// Different shards have different root names.
pub proof fn law_root_names_differ(a: nat, b: nat)
    requires
        valid_shard(a),
        valid_shard(b),
        root_of(a) == root_of(b),
    ensures
        a == b,
{
    law_root_names_round_trip(a);
    law_root_names_round_trip(b);
}

// ---------------------------------------------------------------------------
// Profile bases
// ---------------------------------------------------------------------------

/// A profile's directory, and the parts that its shards are made of.
pub struct BaseView {
    pub path: PathView,
    pub citadel: PathView,
    pub folder: Option<PathView>,
}

/// The last of the first `n` components that is called `addons`.
pub open spec fn last_addons(p: PathView, n: int) -> Option<int>
    decreases n,
{
    if n <= 0 {
        None
    } else if p[n - 1] == "addons"@ {
        Some(n - 1)
    } else {
        last_addons(p, n - 1)
    }
}

/// The base whose directory is `p`: `addons`, or something below it; with
/// `live`, that `addons` stands in a directory called `citadel`.
pub open spec fn base_of(p: PathView, live: bool) -> Option<BaseView> {
    match last_addons(p, p.len() as int) {
        Some(k) => {
            let citadel = p.take(k);
            if live && !(citadel.len() > 0 && citadel.last() == "citadel"@) {
                None
            } else {
                Some(
                    BaseView {
                        path: p,
                        citadel,
                        folder: if k == p.len() - 1 {
                            None
                        } else {
                            Some(p.skip(k + 1))
                        },
                    },
                )
            }
        },
        None => None,
    }
}

pub open spec fn bad_base_text(p: PathView) -> Seq<char> {
    "Addons path is not shaped like citadel/addons[/<profile>]: "@ + path_text(p)
}

/// The components below a shard's root.
pub open spec fn folder_parts(b: BaseView) -> PathView {
    match b.folder {
        Some(f) => f,
        None => Seq::empty(),
    }
}

/// The directory of shard `n`.
pub open spec fn shard_dir_of(b: BaseView, n: nat) -> PathView {
    if n <= 1 {
        b.path
    } else {
        b.citadel.push(root_of(n)) + folder_parts(b)
    }
}

pub open spec fn is_shard_at(b: BaseView, dir: PathView, n: nat) -> bool {
    valid_shard(n) && shard_dir_of(b, n) == dir
}

/// The shard whose directory is `dir`.
pub open spec fn shard_at(b: BaseView, dir: PathView) -> Option<nat> {
    if exists|n: nat| #[trigger] is_shard_at(b, dir, n) {
        Some(choose|n: nat| #[trigger] is_shard_at(b, dir, n))
    } else {
        None
    }
}

/// The base's directory is its `addons` root followed by its folder.
pub open spec fn base_ok(b: BaseView) -> bool {
    b.path == b.citadel.push("addons"@) + folder_parts(b)
}

pub proof fn lemma_last_addons(p: PathView, n: int)
    requires
        0 <= n <= p.len(),
    ensures
        match last_addons(p, n) {
            Some(k) => 0 <= k < n && p[k] == "addons"@ && (forall|j: int|
                k < j < n ==> p[j] != "addons"@),
            None => forall|j: int| 0 <= j < n ==> p[j] != "addons"@,
        },
    decreases n,
{
    if n > 0 && p[n - 1] != "addons"@ {
        lemma_last_addons(p, n - 1);
    }
}

pub proof fn lemma_base_ok(p: PathView, live: bool)
    ensures
        base_of(p, live) is Some ==> base_ok(base_of(p, live)->0) && base_of(p, live)->0.path == p,
{
    lemma_last_addons(p, p.len() as int);
    match last_addons(p, p.len() as int) {
        Some(k) => {
            assert(p =~= p.take(k).push("addons"@) + p.skip(k + 1));
            if k == p.len() - 1 {
                assert(p =~= p.take(k).push("addons"@) + Seq::<Seq<char>>::empty());
            }
        },
        None => {},
    }
}

/// Every shard of a base has a directory of its own.
pub proof fn law_shard_dirs_differ(b: BaseView, m: nat, n: nat)
    requires
        base_ok(b),
        valid_shard(m),
        valid_shard(n),
        shard_dir_of(b, m) == shard_dir_of(b, n),
    ensures
        m == n,
{
    let at = b.citadel.len() as int;
    assert(shard_dir_of(b, m)[at] == root_of(m));
    assert(shard_dir_of(b, n)[at] == root_of(n));
    law_root_names_differ(m, n);
}

/// A profile's root directory, shaped like `citadel/addons` or
/// `citadel/addons/<profile>`.
#[derive(Debug)]
pub struct ProfileBase {
    path: TreePath,
    citadel_dir: TreePath,
    profile_folder: Option<TreePath>,
}

impl View for ProfileBase {
    type V = BaseView;

    closed spec fn view(&self) -> BaseView {
        BaseView {
            path: self.path@,
            citadel: self.citadel_dir@,
            folder: match self.profile_folder {
                Some(f) => Some(f@),
                None => None,
            },
        }
    }
}

impl ProfileBase {
    #[verifier::type_invariant]
    spec fn shaped(self) -> bool {
        base_ok(self@)
    }

    pub fn new(path: &TreePath) -> (r: Result<ProfileBase, Error>)
        ensures
            match r {
                Ok(b) => base_of(path@, true) == Some(b@),
                Err(e) => base_of(path@, true) is None && e@ == ErrorView::InvalidInput(
                    bad_base_text(path@),
                ),
            },
    {
        ProfileBase::from_path(path, true)
    }

    /// The same mapping for a copy of the shard roots outside any `citadel`.
    pub fn from_snapshot(path: &TreePath) -> (r: Result<ProfileBase, Error>)
        ensures
            match r {
                Ok(b) => base_of(path@, false) == Some(b@),
                Err(e) => base_of(path@, false) is None && e@ == ErrorView::InvalidInput(
                    bad_base_text(path@),
                ),
            },
    {
        ProfileBase::from_path(path, false)
    }

    /// The base at a path, in a game where `require_citadel`, else also in a copy of
    /// the shard roots.
    pub fn from_path(path: &TreePath, require_citadel: bool) -> (r: Result<ProfileBase, Error>)
        ensures
            match r {
                Ok(b) => base_of(path@, require_citadel) == Some(b@),
                Err(e) => base_of(path@, require_citadel) is None && e@ == ErrorView::InvalidInput(
                    bad_base_text(path@),
                ),
            },
    {
        proof {
            lemma_base_ok(path@, require_citadel);
            lemma_last_addons(path@, path@.len() as int);
        }
        let mut k: usize = path.len();
        while k > 0 && !text::same_text(path.part(k - 1), "addons")
            invariant
                k <= path@.len(),
                last_addons(path@, path@.len() as int) == last_addons(path@, k as int),
            decreases k,
        {
            k = k - 1;
        }
        if k > 0 {
            let at: usize = k - 1;
            assert(last_addons(path@, path@.len() as int) == Some(at as int));
            let citadel = path.first(at);
            if !require_citadel || (at > 0 && text::same_text(path.part(at - 1), "citadel")) {
                let folder = if k == path.len() {
                    None
                } else {
                    Some(path.rest(k))
                };
                return Ok(
                    ProfileBase {
                        path: path.duplicate(),
                        citadel_dir: citadel,
                        profile_folder: folder,
                    },
                );
            }
        }
        let mut m: String = "Addons path is not shaped like citadel/addons[/<profile>]: ".to_owned();
        m.append(path.to_text().as_str());
        Err(Error::InvalidInput(m))
    }

    pub fn path(&self) -> (r: &TreePath)
        ensures
            r@ == self@.path,
    {
        &self.path
    }

    /// The directory that holds the shard roots.
    pub fn citadel(&self) -> (r: &TreePath)
        ensures
            r@ == self@.citadel,
    {
        &self.citadel_dir
    }

    /// The directory of a shard.
    pub fn shard_dir(&self, shard: ShardIndex) -> (r: TreePath)
        ensures
            r@ == shard_dir_of(self@, shard.number()),
            valid_shard(shard.number()),
            base_ok(self@),
    {
        proof {
            use_type_invariant(self);
        }
        if shard.get() <= 1 {
            return self.path.duplicate();
        }
        let root = self.citadel_dir.child(shard.root_name().as_str());
        match &self.profile_folder {
            Some(folder) => root.followed_by(folder),
            None => {
                assert(root@ =~= root@ + folder_parts(self@));
                root
            },
        }
    }

    /// Every shard with its directory, ascending, whether or not it exists.
    pub fn shards(&self) -> (r: Vec<(ShardIndex, TreePath)>)
        ensures
            r@.len() == MAX_SHARDS,
            forall|i: int|
                0 <= i < MAX_SHARDS ==> (#[trigger] r@[i]).0.number() == i + 1 && r@[i].1@
                    == shard_dir_of(self@, (i + 1) as nat),
            base_ok(self@),
    {
        proof {
            use_type_invariant(self);
        }
        let all = all_shards();
        let mut r: Vec<(ShardIndex, TreePath)> = Vec::new();
        let mut i: usize = 0;
        assert(all@.len() == numbers(all@).len());
        while i < all.len()
            invariant
                i <= all@.len() == MAX_SHARDS,
                numbers(all@) == Seq::new(MAX_SHARDS as nat, |i: int| (i + 1) as nat),
                r@.len() == i,
                forall|j: int|
                    0 <= j < i ==> (#[trigger] r@[j]).0.number() == j + 1 && r@[j].1@
                        == shard_dir_of(self@, (j + 1) as nat),
            decreases all@.len() - i,
        {
            assert(numbers(all@)[i as int] == i + 1);
            r.push((all[i], self.shard_dir(all[i])));
            i = i + 1;
        }
        r
    }

    /// The shard whose directory is `dir`, if any.
    pub fn shard_of_dir(&self, dir: &TreePath) -> (r: Option<ShardIndex>)
        ensures
            opt_number(r) == shard_at(self@, dir@),
    {
        let all = self.shards();
        let mut i: usize = 0;
        while i < all.len()
            invariant
                i <= all@.len() == MAX_SHARDS,
                base_ok(self@),
                forall|j: int|
                    0 <= j < MAX_SHARDS ==> (#[trigger] all@[j]).0.number() == j + 1 && all@[j].1@
                        == shard_dir_of(self@, (j + 1) as nat),
                forall|j: int| 0 <= j < i ==> (#[trigger] all@[j]).1@ != dir@,
            decreases all@.len() - i,
        {
            if all[i].1.equals(dir) {
                proof {
                    law_shard_of_dir_inverts_shard_dir(self@, (i + 1) as nat);
                }
                return Some(all[i].0);
            }
            i = i + 1;
        }
        proof {
            if exists|n: nat| #[trigger] is_shard_at(self@, dir@, n) {
                let n = choose|n: nat| #[trigger] is_shard_at(self@, dir@, n);
                assert(all@[n - 1].1@ != dir@);
            }
        }
        None
    }

    /// Where the file of a locator stands.
    pub fn locator_path(&self, locator: &ShardLocator) -> (r: TreePath)
        ensures
            r@ == path_join(shard_dir_of(self@, locator@.shard), locator@.filename),
    {
        self.shard_dir(locator.shard).join(locator.filename.as_str())
    }

    pub fn duplicate(&self) -> (r: ProfileBase)
        ensures
            r@ == self@,
    {
        proof {
            use_type_invariant(self);
        }
        ProfileBase {
            path: self.path.duplicate(),
            citadel_dir: self.citadel_dir.duplicate(),
            profile_folder: match &self.profile_folder {
                Some(f) => Some(f.duplicate()),
                None => None,
            },
        }
    }
}

/// The directory of a shard belongs to that shard and no other.
pub proof fn law_shard_of_dir_inverts_shard_dir(b: BaseView, n: nat)
    requires
        base_ok(b),
        valid_shard(n),
    ensures
        shard_at(b, shard_dir_of(b, n)) == Some(n),
{
    let dir = shard_dir_of(b, n);
    assert(is_shard_at(b, dir, n));
    let m = choose|m: nat| #[trigger] is_shard_at(b, dir, m);
    law_shard_dirs_differ(b, m, n);
}

// ---------------------------------------------------------------------------
// Locators
// ---------------------------------------------------------------------------

/// A VPK file of a profile: its shard and its name.
#[derive(Debug, Clone, PartialEq, Eq)]
pub struct ShardLocator {
    pub shard: ShardIndex,
    pub filename: String,
}

pub struct LocatorView {
    pub shard: nat,
    pub filename: Seq<char>,
}

impl View for ShardLocator {
    type V = LocatorView;

    open spec fn view(&self) -> LocatorView {
        LocatorView { shard: self.shard.number(), filename: self.filename@ }
    }
}

/// How a locator is written: `file.vpk` in shard 1, `addonsN/file.vpk` elsewhere.
pub open spec fn wire_of(l: LocatorView) -> Seq<char> {
    if l.shard == 1 {
        l.filename
    } else {
        root_of(l.shard) + "/"@ + l.filename
    }
}

/// The locator that a text writes.
pub open spec fn locator_of(v: Seq<char>) -> Option<LocatorView> {
    match split_once_spec(v, "/"@) {
        Some((root, filename)) => match shard_of_root(root) {
            Some(n) => if n != 1 && root == root_of(n) && plain_name(filename) {
                Some(LocatorView { shard: n, filename })
            } else {
                None
            },
            None => None,
        },
        None => if plain_name(v) {
            Some(LocatorView { shard: 1, filename: v })
        } else {
            None
        },
    }
}

/// The locator that an old name stands for.
pub open spec fn legacy_locator_of(v: Seq<char>) -> LocatorView {
    let normalized = replaced(v, '\\', '/');
    match locator_of(normalized) {
        Some(l) => l,
        None => LocatorView { shard: 1, filename: base_name(normalized) },
    }
}

pub open spec fn bad_locator_text(v: Seq<char>) -> Seq<char> {
    "Invalid VPK shard locator: "@ + v
}

impl ShardLocator {
    pub fn new(shard: ShardIndex, filename: String) -> (r: ShardLocator)
        ensures
            r@ == (LocatorView { shard: shard.number(), filename: filename@ }),
            r.shard == shard,
    {
        ShardLocator { shard, filename }
    }

    /// Reads a locator. Only `file.vpk` and `addonsN/file.vpk` with `N` from 2 to
    /// `MAX_SHARDS` are accepted, so a file has one spelling.
    pub fn parse(value: &str) -> (r: Result<ShardLocator, Error>)
        ensures
            match r {
                Ok(l) => locator_of(value@) == Some(l@),
                Err(e) => locator_of(value@) is None && e@ == ErrorView::InvalidInput(
                    bad_locator_text(value@),
                ),
            },
    {
        match text::split_once(value, "/") {
            Some((root, filename)) => {
                match ShardIndex::from_root_name(root.as_str()) {
                    Some(shard) => {
                        if shard.get() != 1 && text::same_text(
                            root.as_str(),
                            shard.root_name().as_str(),
                        ) && path::is_plain_name(filename.as_str()) {
                            return Ok(ShardLocator { shard, filename });
                        }
                    },
                    None => {},
                }
            },
            None => {
                if path::is_plain_name(value) {
                    return Ok(
                        ShardLocator { shard: ShardIndex::first(), filename: value.to_owned() },
                    );
                }
            },
        }
        let mut m: String = "Invalid VPK shard locator: ".to_owned();
        m.append(value);
        Err(Error::InvalidInput(m))
    }

    /// Reads a name that may be older than the format: a bare name, a path with
    /// backslashes, or a nested one. What is not a locator stands for its last
    /// component in shard 1.
    pub fn from_legacy_name(value: &str) -> (r: ShardLocator)
        ensures
            r@ == legacy_locator_of(value@),
    {
        let normalized = text::replace_char(value, '\\', '/');
        match ShardLocator::parse(normalized.as_str()) {
            Ok(l) => l,
            Err(_) => ShardLocator {
                shard: ShardIndex::first(),
                filename: path::base_name_of(normalized.as_str()),
            },
        }
    }

    pub fn to_wire(&self) -> (r: String)
        ensures
            r@ == wire_of(self@),
    {
        if self.shard.get() == 1 {
            self.filename.clone()
        } else {
            let mut r = self.shard.root_name();
            r.append("/");
            r.append(self.filename.as_str());
            r
        }
    }
}

/// A slash splits a text at the place it was put, when none stands before it.
proof fn lemma_split_at_slash(a: Seq<char>, b: Seq<char>)
    requires
        !a.contains('/'),
    ensures
        split_once_spec(a + "/"@ + b, "/"@) == Some((a, b)),
{
    reveal_strlit("/");
    let v = a + "/"@ + b;
    let i = a.len() as int;
    assert(v.subrange(i, i + 1) =~= "/"@);
    assert forall|j: int| 0 <= j < i implies !#[trigger] text::occurs_at(v, "/"@, j) by {
        if text::occurs_at(v, "/"@, j) {
            assert(v.subrange(j, j + 1)[0] == a[j]);
            assert(a.contains('/'));
        }
    }
    text::lemma_index_of_is(v, "/"@, i);
    assert(v.take(i) =~= a);
    assert(v.skip(i + 1) =~= b);
}

/// Writing a locator and reading it gives it back.
pub proof fn law_locators_round_trip(l: LocatorView)
    requires
        valid_shard(l.shard),
        plain_name(l.filename),
    ensures
        locator_of(wire_of(l)) == Some(l),
{
    reveal_strlit("/");
    law_root_names_round_trip(l.shard);
    if l.shard == 1 {
        text::lemma_no_char_no_index(l.filename, '/');
        assert(seq!['/'] =~= "/"@);
    } else {
        lemma_split_at_slash(root_of(l.shard), l.filename);
    }
}

/// A file has one spelling: what is read as a locator is how it is written.
pub proof fn law_locators_have_one_spelling(v: Seq<char>)
    requires
        locator_of(v) is Some,
    ensures
        wire_of(locator_of(v)->0) == v,
        valid_shard(locator_of(v)->0.shard),
        plain_name(locator_of(v)->0.filename),
{
    reveal_strlit("/");
    text::lemma_find_from(v, "/"@, 0);
    match text::index_of(v, "/"@) {
        Some(i) => {
            assert(text::occurs_at(v, "/"@, i));
            assert(v =~= v.take(i) + "/"@ + v.skip(i + 1)) by {
                assert(v.subrange(i, i + 1)[0] == v[i]);
            }
        },
        None => {},
    }
}

// ---------------------------------------------------------------------------
// Staged names
// ---------------------------------------------------------------------------

/// The name of a VPK while it is staged. It tells the shard that the file came
/// from, and it does not end in `.vpk`, so no scan takes it for a live file.
#[derive(Debug, Clone, PartialEq, Eq)]
pub struct StagedName {
    pub shard: ShardIndex,
    pub filename: String,
}

impl View for StagedName {
    type V = LocatorView;

    open spec fn view(&self) -> LocatorView {
        LocatorView { shard: self.shard.number(), filename: self.filename@ }
    }
}

/// How a staged name is written.
pub open spec fn staged_text(l: LocatorView) -> Seq<char> {
    "s"@ + dec(l.shard) + "__"@ + l.filename + ".pending"@
}

/// A staged name's text without the suffix that it may carry.
pub open spec fn without_pending(name: Seq<char>) -> Seq<char> {
    match strip_suffix_spec(name, ".pending"@) {
        Some(s) => s,
        None => name,
    }
}

/// The staged name that a text writes, or what is wrong with it.
pub open spec fn staged_of(name: Seq<char>) -> Result<LocatorView, ErrorView> {
    match split_once_spec(without_pending(name), "__"@) {
        Some((prefix, filename)) => match strip_prefix_spec(prefix, "s"@) {
            Some(digits) => match parse_up_to(digits, u32::MAX as nat) {
                Some(n) => if !valid_shard(n) {
                    Err(ErrorView::ModInvalid("Invalid VPK staging shard: "@ + name))
                } else if !plain_name(filename) {
                    Err(ErrorView::ModInvalid("Invalid VPK staging destination: "@ + name))
                } else {
                    Ok(LocatorView { shard: n, filename })
                },
                None => Err(ErrorView::ModInvalid("Invalid VPK staging shard: "@ + name)),
            },
            None => Err(ErrorView::ModInvalid("Invalid VPK staging shard: "@ + name)),
        },
        None => Err(ErrorView::ModInvalid("Invalid VPK staging file: "@ + name)),
    }
}

fn staging_fault(what: &str, name: &str) -> (r: Error)
    ensures
        r@ == ErrorView::ModInvalid(what@ + name@),
{
    let mut m: String = what.to_owned();
    m.append(name);
    Error::ModInvalid(m)
}

impl StagedName {
    pub fn new(shard: ShardIndex, filename: String) -> (r: StagedName)
        ensures
            r@ == (LocatorView { shard: shard.number(), filename: filename@ }),
    {
        StagedName { shard, filename }
    }

    pub fn encode(&self) -> (r: String)
        ensures
            r@ == staged_text(self@),
    {
        let mut r: String = "s".to_owned();
        r.append(text::decimal(self.shard.get() as u64).as_str());
        r.append("__");
        r.append(self.filename.as_str());
        r.append(".pending");
        r
    }

    /// Reads a staged name; the suffix may be missing.
    pub fn parse(name: &str) -> (r: Result<StagedName, Error>)
        ensures
            match r {
                Ok(s) => staged_of(name@) == Ok::<LocatorView, ErrorView>(s@),
                Err(e) => staged_of(name@) == Err::<LocatorView, ErrorView>(e@),
            },
    {
        let encoded = match text::without_suffix(name, ".pending") {
            Some(s) => s,
            None => name.to_owned(),
        };
        match text::split_once(encoded.as_str(), "__") {
            Some((prefix, filename)) => {
                match text::without_prefix(prefix.as_str(), "s") {
                    Some(digits) => match text::parse_u32(digits.as_str()) {
                        Some(n) => match ShardIndex::try_from_number(n) {
                            Ok(shard) => if path::is_plain_name(filename.as_str()) {
                                Ok(StagedName { shard, filename })
                            } else {
                                Err(staging_fault("Invalid VPK staging destination: ", name))
                            },
                            Err(_) => Err(staging_fault("Invalid VPK staging shard: ", name)),
                        },
                        None => Err(staging_fault("Invalid VPK staging shard: ", name)),
                    },
                    None => Err(staging_fault("Invalid VPK staging shard: ", name)),
                }
            },
            None => Err(staging_fault("Invalid VPK staging file: ", name)),
        }
    }
}

proof fn lemma_staged_body(n: nat, f: Seq<char>)
    requires
        valid_shard(n),
        plain_name(f),
    ensures
        split_once_spec("s"@ + dec(n) + "__"@ + f, "__"@) == Some(("s"@ + dec(n), f)),
        strip_prefix_spec("s"@ + dec(n), "s"@) == Some(dec(n)),
{
    reveal_strlit("__");
    reveal_strlit("s");
    text::lemma_dec(n);
    let a = "s"@ + dec(n);
    let v = a + "__"@ + f;
    let i = a.len() as int;
    assert(v.subrange(i, i + 2) =~= "__"@);
    assert forall|j: int| 0 <= j < i implies !#[trigger] text::occurs_at(v, "__"@, j) by {
        if text::occurs_at(v, "__"@, j) {
            assert(v.subrange(j, j + 2)[0] == a[j]);
            assert("__"@[0] == '_');
            if j > 0 {
                assert(dec(n)[j - 1] == '_');
                assert(dec(n).contains('_'));
            }
        }
    }
    text::lemma_index_of_is(v, "__"@, i);
    assert(v.take(i) =~= a);
    assert(v.skip(i + 2) =~= f);
    assert(a.take(1) =~= "s"@);
    assert(a.skip(1) =~= dec(n));
}

/// Writing a staged name and reading it gives it back.
pub proof fn law_staged_names_round_trip(l: LocatorView)
    requires
        valid_shard(l.shard),
        plain_name(l.filename),
    ensures
        staged_of(staged_text(l)) == Ok::<LocatorView, ErrorView>(l),
{
    let body = "s"@ + dec(l.shard) + "__"@ + l.filename;
    let v = staged_text(l);
    assert(v.skip(v.len() - ".pending"@.len()) =~= ".pending"@);
    assert(v.take(v.len() - ".pending"@.len()) =~= body);
    lemma_staged_body(l.shard, l.filename);
    text::lemma_parse_dec(l.shard, u32::MAX as nat);
}

/// A file that is set aside is never taken for a VPK.
pub proof fn law_staged_names_are_no_vpks(l: LocatorView)
    ensures
        !crate::path::vpk_name(staged_text(l)),
{
    let v = staged_text(l);
    reveal_strlit(".pending");
    reveal_strlit(".vpk");
    assert(".pending"@.len() == 8);
    assert(".vpk"@.len() == 4);
    assert(v[v.len() - 1] == ".pending"@[7]);
    assert(".pending"@[7] == 'g');
    assert(".vpk"@[3] == 'k');
    if text::ends_with(v, ".vpk"@) {
        assert(v.skip(v.len() - 4)[3] == v[v.len() - 1]);
    }
}

/// A staged name without its suffix is read as the same name.
pub proof fn law_staged_names_tolerate_a_missing_suffix(l: LocatorView)
    requires
        valid_shard(l.shard),
        plain_name(l.filename),
        !text::ends_with("s"@ + dec(l.shard) + "__"@ + l.filename, ".pending"@),
    ensures
        staged_of("s"@ + dec(l.shard) + "__"@ + l.filename) == Ok::<LocatorView, ErrorView>(l),
{
    lemma_staged_body(l.shard, l.filename);
    text::lemma_parse_dec(l.shard, u32::MAX as nat);
}

// ---------------------------------------------------------------------------
// Names that belong to the manager itself; search paths
// ---------------------------------------------------------------------------

pub open spec fn internal_artifact(name: Seq<char>) -> bool {
    ||| name == ".dmm.json.tmp"@
    ||| name == CLEAR_STAGING_DIR@
    ||| name == REORDER_STAGING_DIR@
    ||| starts_with(name, UPDATE_STAGING_PREFIX@)
    ||| starts_with(name, DELETE_STAGING_PREFIX@)
}

/// Names that belong to an operation under way or cut short, not to the user.
pub fn is_internal_artifact(name: &str) -> (r: bool)
    ensures
        r == internal_artifact(name@),
{
    text::same_text(name, ".dmm.json.tmp") || text::same_text(name, CLEAR_STAGING_DIR)
        || text::same_text(name, REORDER_STAGING_DIR) || text::begins(name, UPDATE_STAGING_PREFIX)
        || text::begins(name, DELETE_STAGING_PREFIX)
}

/// A letter or digit of ASCII, `_` or `-`.
pub open spec fn search_path_char(c: char) -> bool {
    ('a' <= c && c <= 'z') || ('A' <= c && c <= 'Z') || ('0' <= c && c <= '9') || c == '_' || c
        == '-'
}

/// A folder name that is safe inside a search-path line.
pub open spec fn safe_search_folder(s: Seq<char>) -> bool {
    s.len() > 0 && forall|i: int| 0 <= i < s.len() ==> search_path_char(#[trigger] s[i])
}

pub open spec fn valid_search_path(p: Seq<char>) -> bool {
    let segments = pieces(p, '/');
    &&& segments[0] == "citadel"@
    &&& segments.len() == 2 || (segments.len() == 3 && safe_search_folder(segments[2]))
    &&& shard_of_root(segments[1]) is Some
}

/// Component `k` is the last one called `addons`.
pub open spec fn nearest_addons(p: PathView, k: int) -> bool {
    0 <= k < p.len() && p[k] == "addons"@ && forall|j: int|
        k < j < p.len() ==> #[trigger] p[j] != "addons"@
}

/// A base is found exactly where the path is called `addons`, or something above it is,
/// and for a live one that stands in a directory called `citadel`. Its directory is the
/// path, and its game directory the one that the nearest `addons` stands in.
pub proof fn law_bases_lie_in_addons(p: PathView, live: bool)
    ensures
        match base_of(p, live) {
            Some(b) => b.path == p && exists|k: int| #[trigger]
                nearest_addons(p, k) && b.citadel == p.take(k) && (live ==> k > 0 && p[k - 1]
                    == "citadel"@),
            None => forall|k: int| #[trigger]
                nearest_addons(p, k) ==> live && !(k > 0 && p[k - 1] == "citadel"@),
        },
{
    lemma_last_addons(p, p.len() as int);
    match last_addons(p, p.len() as int) {
        Some(k) => {
            assert(nearest_addons(p, k));
            assert(k > 0 ==> p.take(k).last() == p[k - 1]);
            assert forall|i: int| #[trigger] nearest_addons(p, i) implies i == k by {
                if i < k {
                    assert(p[k] != "addons"@);
                }
                if k < i {
                    assert(p[i] != "addons"@);
                }
            }
        },
        None => {},
    }
}

/// A directory that can be the base of a live profile can be that of a snapshot too,
/// and is the same base.
pub proof fn law_live_bases_are_snapshot_bases(p: PathView)
    requires
        base_of(p, true) is Some,
    ensures
        base_of(p, false) == base_of(p, true),
        base_of(p, true)->0.path == p,
{
}

pub fn is_search_path_char(c: char) -> (r: bool)
    ensures
        r == search_path_char(c),
{
    ('a' <= c && c <= 'z') || ('A' <= c && c <= 'Z') || ('0' <= c && c <= '9') || c == '_' || c
        == '-'
}

fn is_gameinfo_safe_profile(profile: &str) -> (r: bool)
    ensures
        r == safe_search_folder(profile@),
{
    let n: usize = profile.unicode_len();
    let mut i: usize = 0;
    while i < n
        invariant
            n == profile@.len(),
            i <= n,
            forall|j: int| 0 <= j < i ==> search_path_char(#[trigger] profile@[j]),
        decreases n - i,
    {
        if !is_search_path_char(profile.get_char(i)) {
            assert(!search_path_char(profile@[i as int]));
            return false;
        }
        i = i + 1;
    }
    n > 0
}

/// Whether a search path is one that a shard of a safely named profile can have.
pub fn is_valid_search_path(path: &str) -> (r: bool)
    ensures
        r == valid_search_path(path@),
{
    let segments = text::split_at_char(path, '/');
    let ghost sv = pieces(path@, '/');
    assert(sv.len() == segments@.len());
    if segments.len() != 2 && segments.len() != 3 {
        return false;
    }
    assert(sv[0] == segments@[0]@);
    assert(sv[1] == segments@[1]@);
    if !text::same_text(segments[0].as_str(), "citadel") {
        return false;
    }
    if ShardIndex::from_root_name(segments[1].as_str()).is_none() {
        return false;
    }
    if segments.len() == 2 {
        return true;
    }
    assert(sv[2] == segments@[2]@);
    is_gameinfo_safe_profile(segments[2].as_str())
}

/// The search path of a shard is valid if the folder of its profile is safe, and is
/// refused if it is not.
pub proof fn law_search_paths_are_valid(n: nat, folder: Option<Seq<char>>)
    requires
        valid_shard(n),
    ensures
        valid_search_path(search_path_of(n, folder)) <==> (folder is Some ==> safe_search_folder(
            folder->0,
        )),
{
    reveal_strlit("citadel/");
    reveal_strlit("citadel");
    reveal_strlit("/");
    law_root_names_round_trip(n);
    let root = root_of(n);
    let c = "citadel"@;
    assert(!c.contains('/'));
    assert("citadel/"@ =~= c + "/"@);
    let tail = match folder {
        Some(f) => root + "/"@ + f,
        None => root,
    };
    assert(search_path_of(n, folder) =~= c + "/"@ + tail);
    lemma_pieces_cons(c, tail);
    match folder {
        Some(f) => {
            lemma_pieces_cons(root, f);
            if f.contains('/') {
                let a = choose|a: int| 0 <= a < f.len() && f[a] == '/';
                assert(!search_path_char(f[a]));
                text::lemma_char_from(f, '/', 0);
                let i = text::char_from(f, '/', 0);
                assert(pieces(f, '/') == seq![f.subrange(0, i)] + text::pieces_from(f, '/', i + 1));
                text::lemma_char_from(f, '/', i + 1);
                assert(text::pieces_from(f, '/', i + 1).len() >= 1);
            } else {
                path::lemma_one_piece(f);
            }
        },
        None => {
            path::lemma_one_piece(root);
        },
    }
}

/// Splitting off the part before the first slash.
proof fn lemma_pieces_cons(a: Seq<char>, b: Seq<char>)
    requires
        !a.contains('/'),
    ensures
        pieces(a + "/"@ + b, '/') == seq![a] + pieces(b, '/'),
{
    reveal_strlit("/");
    let v = a + "/"@ + b;
    let i = a.len() as int;
    text::lemma_char_from(v, '/', 0);
    let k = text::char_from(v, '/', 0);
    if k < i {
        assert(a[k] == '/');
    }
    if k > i {
        assert(v[i] == '/');
    }
    assert(v.subrange(0, i) =~= a);
    assert(v.skip(i + 1) =~= b);
    lemma_pieces_shift(v, b, i + 1, 0);
}

proof fn lemma_pieces_shift(v: Seq<char>, b: Seq<char>, at: int, k: int)
    requires
        0 <= at <= v.len(),
        v.skip(at) == b,
        0 <= k <= b.len(),
    ensures
        text::pieces_from(v, '/', at + k) == text::pieces_from(b, '/', k),
    decreases b.len() + 1 - k,
{
    text::lemma_char_from(v, '/', at + k);
    text::lemma_char_from(b, '/', k);
    let i = text::char_from(v, '/', at + k);
    let j = text::char_from(b, '/', k);
    assert(forall|x: int| 0 <= x < b.len() ==> b[x] == v[at + x]);
    if j < b.len() {
        assert(v[at + j] == '/');
        assert(i <= at + j);
        assert(b[i - at] == v[i]);
    } else if i < v.len() {
        assert(b[i - at] == v[i]);
    }
    assert(i == at + j);
    if j >= b.len() {
        assert(v.skip(at + k) =~= b.skip(k));
    } else {
        assert(v.subrange(at + k, i) =~= b.subrange(k, j));
        lemma_pieces_shift(v, b, at, j + 1);
    }
}

/// What belongs to an operation under way is known by its name: a manifest that is being
/// written, and what is set aside by clearing, reordering, updating and deleting.
pub proof fn law_unfinished_work_is_known_by_its_name(name: Seq<char>, id: Seq<char>)
    ensures
        internal_artifact(".dmm.json.tmp"@),
        internal_artifact(".dmm-clear"@),
        internal_artifact(".dmm-reorder"@),
        internal_artifact(".dmm-update-"@ + id),
        internal_artifact(".dmm-deleting-"@ + id),
        name.len() > 0 && name[0] != '.' ==> !internal_artifact(name),
        internal_artifact(name) && !starts_with(name, ".dmm-update-"@) && !starts_with(
            name,
            ".dmm-deleting-"@,
        ) ==> name == ".dmm.json.tmp"@ || name == ".dmm-clear"@ || name == ".dmm-reorder"@,
{
    reveal_strlit(".dmm.json.tmp");
    reveal_strlit(".dmm-clear");
    reveal_strlit(".dmm-reorder");
    reveal_strlit(".dmm-update-");
    reveal_strlit(".dmm-deleting-");
    let update = ".dmm-update-"@ + id;
    let deleting = ".dmm-deleting-"@ + id;
    assert(update.take(".dmm-update-"@.len() as int) =~= ".dmm-update-"@);
    assert(deleting.take(".dmm-deleting-"@.len() as int) =~= ".dmm-deleting-"@);
    if name.len() > 0 && name[0] != '.' {
        if starts_with(name, ".dmm-update-"@) {
            assert(name.take(".dmm-update-"@.len() as int)[0] == '.');
        }
        if starts_with(name, ".dmm-deleting-"@) {
            assert(name.take(".dmm-deleting-"@.len() as int)[0] == '.');
        }
    }
}

/// A locator of old is read as one of today, also with the separators of another system. What
/// is no locator stands for a file of its last name in the first shard.
pub proof fn law_old_locators_are_read(l: LocatorView, v: Seq<char>)
    requires
        valid_shard(l.shard),
        plain_name(l.filename),
        !l.filename.contains('\\'),
        replaced(v, '\\', '/') == wire_of(l),
    ensures
        legacy_locator_of(v) == l,
        l.shard == 1 ==> legacy_locator_of(l.filename) == l,
{
    law_locators_round_trip(l);
    assert(replaced(l.filename, '\\', '/') =~= l.filename) by {
        assert forall|i: int| 0 <= i < l.filename.len() implies replaced(
            l.filename,
            '\\',
            '/',
        )[i] == l.filename[i] by {
            assert(l.filename.contains(l.filename[i]));
        }
    }
}

} // verus!
