//! Names of VPK files: `pak##_dir.vpk` while enabled, `{mod_id}_*.vpk` while
//! disabled.
use super::VpkManager;
use crate::text;
use crate::disk::{
    exists_at, is_file_at, lemma_filter_distinct, lemma_filter_members, lemma_names_in,
    names_in, Disk, DiskView, NodeView,
};
use crate::path::{plain_name, PathView, TreePath};
use crate::shard::SHARD_CAPACITY;
use crate::table::{ascending, lemma_filter_in_order, lemma_finite_has_order, Key};
use crate::text::{
    all_digits, dec, digits_value, ends_with, opt_text, split_once_spec, starts_with,
    strip_prefix_spec, strip_suffix_spec, texts,
};
use vstd::prelude::*;
use vstd::string::*;

verus! {

/// The name of the enabled VPK with number `n`, padded to two digits.
pub open spec fn pak_name(n: nat) -> Seq<char> {
    if n < 10 {
        "pak0"@ + dec(n) + "_dir.vpk"@
    } else {
        "pak"@ + dec(n) + "_dir.vpk"@
    }
}

/// The number of an enabled VPK's name.
pub open spec fn pak_number(name: Seq<char>) -> Option<nat> {
    match strip_prefix_spec(name, "pak"@) {
        Some(rest) => match strip_suffix_spec(rest, "_dir.vpk"@) {
            Some(digits) => if digits.len() > 0 && all_digits(digits) && digits_value(digits)
                <= u32::MAX {
                Some(digits_value(digits))
            } else {
                None
            },
            None => None,
        },
        None => None,
    }
}

/// A name in `dir` that is an enabled VPK.
pub open spec fn enabled_in(d: DiskView, dir: PathView, name: Seq<char>) -> bool {
    is_file_at(d, dir.push(name)) && pak_number(name) is Some
}

/// The enabled VPKs of a directory, in the order of their names.
pub open spec fn enabled_names(d: DiskView, dir: PathView) -> Seq<Seq<char>> {
    names_in(d, dir).filter(|n: Seq<char>| enabled_in(d, dir, n))
}

/// How many VPKs are enabled in a directory.
pub open spec fn enabled_count(d: DiskView, dir: PathView) -> nat {
    enabled_names(d, dir).len()
}

/// A VPK is enabled under a number that the engine does not load.
pub open spec fn has_out_of_range(d: DiskView, dir: PathView) -> bool {
    exists|n: Seq<char>|
        enabled_names(d, dir).contains(n) && #[trigger] pak_number(n)->0 > SHARD_CAPACITY
}

/// The least number from `n` to the capacity whose name is free in a directory.
pub open spec fn free_from(d: DiskView, dir: PathView, n: nat) -> Option<nat>
    decreases SHARD_CAPACITY + 1 - n,
{
    if n > SHARD_CAPACITY {
        None
    } else if !exists_at(d, dir.push(pak_name(n))) {
        Some(n)
    } else {
        free_from(d, dir, n + 1)
    }
}

/// The mod whose disabled file this name is.
pub open spec fn prefix_mod_id(name: Seq<char>) -> Option<Seq<char>> {
    match strip_suffix_spec(name, ".vpk"@) {
        Some(stem) => match split_once_spec(stem, "_"@) {
            Some((id, _)) => if starts_with(id, "local-"@) || (id.len() > 0 && all_digits(id)) {
                Some(id)
            } else {
                None
            },
            None => None,
        },
        None => None,
    }
}

proof fn lemma_pak_digits(n: nat)
    ensures
        ({
            let digits = if n < 10 {
                "0"@ + dec(n)
            } else {
                dec(n)
            };
            &&& pak_name(n) == "pak"@ + digits + "_dir.vpk"@
            &&& digits.len() > 0
            &&& all_digits(digits)
            &&& digits_value(digits) == n
        }),
{
    reveal_strlit("pak");
    reveal_strlit("pak0");
    reveal_strlit("0");
    text::lemma_dec(n);
    if n < 10 {
        let digits = "0"@ + dec(n);
        assert(pak_name(n) =~= "pak"@ + digits + "_dir.vpk"@);
        assert(dec(n).len() == 1);
        assert forall|i: int| 0 <= i < digits.len() implies text::is_digit(#[trigger] digits[i]) by {
            if i == 1 {
                assert(digits[i] == dec(n)[0]);
            }
        }
        assert(digits.drop_last() =~= "0"@);
        assert("0"@.drop_last() =~= Seq::<char>::empty());
        assert(digits_value("0"@.drop_last()) == 0);
        assert(digits_value("0"@) == 0);
        assert(dec(n).drop_last() =~= Seq::<char>::empty());
        assert(digits_value(dec(n).drop_last()) == 0);
        assert(digits.last() == dec(n).last());
    }
}

/// The number of an enabled name is the number it was made from.
pub proof fn law_enabled_names_round_trip(n: nat)
    requires
        n <= u32::MAX,
    ensures
        pak_number(pak_name(n)) == Some(n),
{
    lemma_pak_digits(n);
    let digits = if n < 10 {
        "0"@ + dec(n)
    } else {
        dec(n)
    };
    let name = pak_name(n);
    assert(name.take("pak"@.len() as int) =~= "pak"@);
    let rest = name.skip("pak"@.len() as int);
    assert(rest =~= digits + "_dir.vpk"@);
    assert(rest.skip(rest.len() - "_dir.vpk"@.len()) =~= "_dir.vpk"@);
    assert(rest.take(rest.len() - "_dir.vpk"@.len()) =~= digits);
}

/// Enabled names are plain names, and different numbers have different ones.
pub proof fn lemma_pak_plain(n: nat)
    ensures
        plain_name(pak_name(n)),
        ends_with(pak_name(n), ".vpk"@),
{
    lemma_pak_digits(n);
    reveal_strlit("pak");
    reveal_strlit("_dir.vpk");
    reveal_strlit(".vpk");
    reveal_strlit(".");
    reveal_strlit("..");
    let name = pak_name(n);
    let digits = if n < 10 {
        "0"@ + dec(n)
    } else {
        dec(n)
    };
    if name.contains('/') {
        let a = choose|a: int| 0 <= a < name.len() && name[a] == '/';
        if a < 3 {
            assert("pak"@[a] == '/');
        } else if a < 3 + digits.len() {
            assert(text::is_digit(digits[a - 3]));
        } else {
            assert("_dir.vpk"@[a - 3 - digits.len()] == '/');
        }
    }
    assert(name.skip(name.len() - 4) =~= ".vpk"@);
}

pub proof fn lemma_free_from(d: DiskView, dir: PathView, n: nat)
    ensures
        match free_from(d, dir, n) {
            Some(k) => n <= k <= SHARD_CAPACITY && !exists_at(d, dir.push(pak_name(k))) && (forall|
                j: nat,
            |
                n <= j < k ==> exists_at(d, dir.push(#[trigger] pak_name(j)))),
            None => forall|j: nat|
                n <= j <= SHARD_CAPACITY ==> exists_at(d, dir.push(#[trigger] pak_name(j))),
        },
    decreases SHARD_CAPACITY + 1 - n,
{
    if n <= SHARD_CAPACITY && exists_at(d, dir.push(pak_name(n))) {
        lemma_free_from(d, dir, n + 1);
    }
}

/// An enabled VPK is a file named `pak`, a number and `_dir.vpk`, and its number is the value
/// of the digits.
pub proof fn law_enabled_names_are_numbered(name: Seq<char>, digits: Seq<char>)
    requires
        name == "pak"@ + digits + "_dir.vpk"@,
    ensures
        digits.len() > 0 && all_digits(digits) && digits_value(digits) <= u32::MAX ==> pak_number(
            name,
        ) == Some(digits_value(digits)),
        digits.len() == 0 || !all_digits(digits) ==> pak_number(name) is None,
{
    assert(name.take("pak"@.len() as int) =~= "pak"@);
    let rest = name.skip("pak"@.len() as int);
    assert(rest =~= digits + "_dir.vpk"@);
    assert(rest.skip(rest.len() - "_dir.vpk"@.len()) =~= "_dir.vpk"@);
    assert(rest.take(rest.len() - "_dir.vpk"@.len()) =~= digits);
}

/// Every enabled VPK of a directory is listed, in the order of the names, and nothing else; and the directory holds
/// a VPK that the engine does not load just where one is numbered above 99.
pub proof fn law_every_enabled_vpk_is_listed(d: DiskView, dir: PathView)
    requires
        d.dom().finite(),
    ensures
        forall|n: Seq<char>| #[trigger]
            enabled_names(d, dir).contains(n) <==> is_file_at(d, dir.push(n)) && pak_number(
                n,
            ) is Some,
        enabled_names(d, dir).no_duplicates(),
        ascending::<String>(enabled_names(d, dir)),
        has_out_of_range(d, dir) <==> exists|n: Seq<char>|
            is_file_at(d, #[trigger] dir.push(n)) && pak_number(n) is Some && pak_number(n)->0
                > 99,
{
    lemma_finite_has_order::<TreePath, NodeView>(d);
    lemma_names_in(d, dir);
    let names = names_in(d, dir);
    let pred = |n: Seq<char>| enabled_in(d, dir, n);
    lemma_filter_members(names, pred);
    assert forall|i: int, j: int| 0 <= i < j < names.len() implies #[trigger] names[i]
        != #[trigger] names[j] by {
        assert(text::text_before(names[i], names[j]));
        if names[i] == names[j] {
            String::before_total(names[i], names[j]);
        }
    }
    lemma_filter_distinct(names, pred);
    lemma_filter_in_order::<String>(names, pred);
    if has_out_of_range(d, dir) {
        let n = choose|n: Seq<char>|
            enabled_names(d, dir).contains(n) && #[trigger] pak_number(n)->0 > SHARD_CAPACITY;
        assert(is_file_at(d, dir.push(n)));
    }
    if exists|n: Seq<char>|
        is_file_at(d, #[trigger] dir.push(n)) && pak_number(n) is Some && pak_number(n)->0 > 99 {
        let n = choose|n: Seq<char>|
            is_file_at(d, #[trigger] dir.push(n)) && pak_number(n) is Some && pak_number(n)->0
                > 99;
        assert(enabled_names(d, dir).contains(n));
    }
}

/// The next free number is the least one from 1 to 99 whose name nothing stands under; there is
/// none just where all of them are taken.
pub proof fn law_the_least_free_number_comes_next(d: DiskView, dir: PathView)
    ensures
        match free_from(d, dir, 1) {
            Some(n) => 1 <= n <= 99 && !exists_at(d, dir.push(pak_name(n))) && (forall|j: nat|
                1 <= j < n ==> exists_at(d, dir.push(#[trigger] pak_name(j)))),
            None => forall|j: nat|
                1 <= j <= 99 ==> exists_at(d, dir.push(#[trigger] pak_name(j))),
        },
{
    lemma_free_from(d, dir, 1);
}

/// A disabled file tells the mod that it belongs to: one with a number, or a local one.
pub proof fn law_disabled_names_tell_their_mod(id: Seq<char>, rest: Seq<char>)
    requires
        !id.contains('_'),
    ensures
        (id.len() > 0 && all_digits(id)) || starts_with(id, "local-"@) ==> prefix_mod_id(
            id + "_"@ + rest + ".vpk"@,
        ) == Some(id),
        !(id.len() > 0 && all_digits(id)) && !starts_with(id, "local-"@) ==> prefix_mod_id(
            id + "_"@ + rest + ".vpk"@,
        ) is None,
{
    reveal_strlit("_");
    let stem = id + "_"@ + rest;
    let name = stem + ".vpk"@;
    assert(name.skip(name.len() - ".vpk"@.len()) =~= ".vpk"@);
    assert(name.take(name.len() - ".vpk"@.len()) =~= stem);
    let i = id.len() as int;
    assert(stem.subrange(i, i + 1) =~= "_"@);
    assert forall|j: int| 0 <= j < i implies !#[trigger] text::occurs_at(stem, "_"@, j) by {
        if text::occurs_at(stem, "_"@, j) {
            assert(stem.subrange(j, j + 1)[0] == id[j]);
            assert(id.contains(id[j]));
        }
    }
    text::lemma_find_from(stem, "_"@, 0);
    assert(text::occurs_at(stem, "_"@, i));
    assert(stem.take(i) =~= id);
}

/// The name of the enabled VPK with number `n`.
pub fn enabled_vpk_name(n: u32) -> (r: String)
    ensures
        r@ == pak_name(n as nat),
{
    let mut r: String = if n < 10 {
        "pak0".to_owned()
    } else {
        "pak".to_owned()
    };
    r.append(text::decimal(n as u64).as_str());
    r.append("_dir.vpk");
    r
}

fn only_digits(s: &str) -> (r: bool)
    ensures
        r == (s@.len() > 0 && all_digits(s@)),
{
    let n: usize = s.unicode_len();
    let mut i: usize = 0;
    while i < n
        invariant
            n == s@.len(),
            i <= n,
            forall|j: int| 0 <= j < i ==> text::is_digit(#[trigger] s@[j]),
        decreases n - i,
    {
        let c = s.get_char(i);
        if c < '0' || c > '9' {
            assert(!text::is_digit(s@[i as int]));
            return false;
        }
        i = i + 1;
    }
    n > 0
}


/// The enabled VPKs of a directory, in the order of their names.
pub fn list_enabled(disk: &Disk, dir: &TreePath) -> (r: Vec<String>)
    ensures
        texts(r@) == enabled_names(disk@, dir@),
{
    let names = disk.names(dir);
    let ghost all = names_in(disk@, dir@);
    let ghost pred = |n: Seq<char>| enabled_in(disk@, dir@, n);
    let mut r: Vec<String> = Vec::new();
    let mut i: usize = 0;
    proof {
        reveal(Seq::filter);
        assert(all.take(0).filter(pred) =~= Seq::<Seq<char>>::empty());
        assert(texts(r@) =~= Seq::<Seq<char>>::empty());
    }
    while i < names.len()
        invariant
            i <= names@.len(),
            texts(names@) == all,
            pred == (|n: Seq<char>| enabled_in(disk@, dir@, n)),
            texts(r@) == all.take(i as int).filter(pred),
        decreases names@.len() - i,
    {
        proof {
            assert(all[i as int] == names@[i as int]@);
            assert(all.take(i + 1) =~= all.take(i as int).push(all[i as int]));
            crate::disk::lemma_filter_push(all.take(i as int), all[i as int], pred);
        }
        if VpkManager::is_enabled_vpk_name(names[i].as_str()) && disk.is_file(&dir.child(names[i].as_str())) {
            let s = names[i].clone();
            proof {
                text::lemma_texts_push(r@, s);
            }
            r.push(s);
        }
        i = i + 1;
    }
    assert(all.take(all.len() as int) =~= all);
    r
}

/// The least number up to the capacity whose name is free in a directory.
pub fn next_free_number(disk: &Disk, dir: &TreePath) -> (r: Option<u32>)
    ensures
        match r {
            Some(n) => free_from(disk@, dir@, 1) == Some(n as nat) && 1 <= n <= SHARD_CAPACITY,
            None => free_from(disk@, dir@, 1) is None,
        },
{
    let mut n: u32 = 1;
    while n <= SHARD_CAPACITY
        invariant
            1 <= n <= SHARD_CAPACITY + 1,
            free_from(disk@, dir@, 1) == free_from(disk@, dir@, n as nat),
        decreases SHARD_CAPACITY + 1 - n,
    {
        if !disk.has(&dir.child(enabled_vpk_name(n).as_str())) {
            return Some(n);
        }
        n = n + 1;
    }
    None
}

impl VpkManager {
    /// The number of an enabled VPK's name.
    pub fn enabled_vpk_number(name: &str) -> (r: Option<u32>)
        ensures
            match r {
                Some(n) => pak_number(name@) == Some(n as nat),
                None => pak_number(name@) is None,
            },
    {
        match text::without_prefix(name, "pak") {
            Some(rest) => match text::without_suffix(rest.as_str(), "_dir.vpk") {
                Some(digits) => if only_digits(digits.as_str()) {
                    assert(digits@[0] != '+') by {
                        assert(text::is_digit(digits@[0]));
                    }
                    text::parse_u32(digits.as_str())
                } else {
                    None
                },
                None => None,
            },
            None => None,
        }
    }

    pub fn is_enabled_vpk_name(name: &str) -> (r: bool)
        ensures
            r == (pak_number(name@) is Some),
    {
        VpkManager::enabled_vpk_number(name).is_some()
    }

    /// The mod whose disabled file this name is.
    pub fn extract_mod_id_from_prefix(name: &str) -> (r: Option<String>)
        ensures
            opt_text(r) == prefix_mod_id(name@),
    {
        match text::without_suffix(name, ".vpk") {
            Some(stem) => match text::split_once(stem.as_str(), "_") {
                Some((id, _)) => if text::begins(id.as_str(), "local-") || only_digits(id.as_str()) {
                    Some(id)
                } else {
                    None
                },
                None => None,
            },
            None => None,
        }
    }

    /// How many VPKs are enabled in a directory.
    pub fn count_enabled_vpks(disk: &Disk, dir: &TreePath) -> (r: usize)
        ensures
            r == enabled_count(disk@, dir@),
    {
        let names = list_enabled(disk, dir);
        assert(names@.len() == texts(names@).len());
        names.len()
    }

    /// Whether a VPK is enabled under a number that the engine does not load.
    pub fn has_out_of_range_enabled_vpks(disk: &Disk, dir: &TreePath) -> (r: bool)
        ensures
            r == has_out_of_range(disk@, dir@),
    {
        let names = list_enabled(disk, dir);
        let ghost all = enabled_names(disk@, dir@);
        let mut i: usize = 0;
        while i < names.len()
            invariant
                i <= names@.len(),
                texts(names@) == all,
                all == enabled_names(disk@, dir@),
                forall|j: int| 0 <= j < i ==> pak_number(#[trigger] all[j])->0 <= SHARD_CAPACITY,
            decreases names@.len() - i,
        {
            assert(all[i as int] == names@[i as int]@);
            assert(all.contains(all[i as int]));
            proof {
                crate::disk::lemma_filter_members(
                    names_in(disk@, dir@),
                    |n: Seq<char>| enabled_in(disk@, dir@, n),
                );
            }
            match VpkManager::enabled_vpk_number(names[i].as_str()) {
                Some(n) => {
                    if n > SHARD_CAPACITY {
                        assert(pak_number(all[i as int])->0 > SHARD_CAPACITY);
                        return true;
                    }
                },
                None => {},
            }
            i = i + 1;
        }
        false
    }
}

} // verus!
