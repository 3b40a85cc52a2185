//! Which names stand for backups: none of an unfinished one, and each that one is made
//! under.
use super::{backup_made, backup_path, build_place, is_backup, safe_backup_name};
use super::round_trip::lemma_build_place;
use crate::backup_name::{
    is_backup_filename, is_stamp, month_days, stamp_of, two_digits, valid_time, writes_time,
    year_text, BACKUP_PREFIX,
};
use crate::disk::{lemma_below_exists, lemma_with_dirs, rooted, same_at, with_dirs, DiskView};
use crate::error::ErrorView;
use crate::path::PathView;
use crate::text::{dec, is_digit, lemma_dec, occurs_at, starts_with};
use vstd::prelude::*;

verus! {

/// The name of the directory in which a backup is built.
pub open spec fn unfinished_name(name: Seq<char>, attempt: nat) -> Seq<char> {
    "."@ + name + ".staging-"@ + dec(attempt)
}

proof fn lemma_hidden(n: Seq<char>)
    requires
        n.len() > 0,
        n[0] == '.',
    ensures
        !starts_with(n, BACKUP_PREFIX@),
{
    reveal_strlit("addons-backup-");
    if starts_with(n, BACKUP_PREFIX@) {
        assert(n.take(14)[0] == BACKUP_PREFIX@[0]);
    }
}

/// A backup that is still being built, or whose building was interrupted, is not
/// listed, and can be neither restored nor deleted nor asked about.
pub proof fn law_unfinished_backups_are_no_backups(
    d: DiskView,
    dir: PathView,
    game: Option<PathView>,
    name: Seq<char>,
    attempt: nat,
)
    ensures
        !is_backup(d, dir, unfinished_name(name, attempt)),
        backup_path(game, unfinished_name(name, attempt)) == Err::<PathView, ErrorView>(
            ErrorView::InvalidInput("Invalid addons backup name"@),
        ),
{
    reveal_strlit(".");
    lemma_hidden(unfinished_name(name, attempt));
}

/// Making a backup that fails leaves everything as it was, and adds no backup.
pub proof fn law_failed_backups_are_not_listed(
    d: DiskView,
    addons: PathView,
    dir: PathView,
    name: Seq<char>,
)
    requires
        rooted(d),
        d.dom().finite(),
        safe_backup_name(name),
        backup_made(d, addons, dir, name).1 is Err,
    ensures
        ({
            let e = backup_made(d, addons, dir, name).0;
            &&& forall|q: PathView| #[trigger] d.contains_key(q) ==> same_at(d, e, q)
            &&& forall|n: Seq<char>| #[trigger] is_backup(e, dir, n) ==> is_backup(d, dir, n)
        }),
{
    let e = backup_made(d, addons, dir, name).0;
    if e != d {
        let d1 = with_dirs(d, dir);
        lemma_with_dirs(d, dir);
        assert forall|n: Seq<char>| d1.contains_key(#[trigger] dir.push(n)) implies d.contains_key(
            dir.push(n),
        ) by {
            assert(!dir.push(n).is_prefix_of(dir));
        }
        if e != d1 {
            let stage = build_place(d1, dir, name, 0)->Ok_0;
            lemma_build_place(d1, dir, name, 0);
            lemma_hidden(stage.last());
            assert forall|q: PathView| #[trigger] d1.contains_key(q) implies !stage.is_prefix_of(
                q,
            ) by {
                if stage.is_prefix_of(q) {
                    lemma_below_exists(d1, stage, q);
                }
            }
            assert forall|q: PathView| #[trigger] d.contains_key(q) implies same_at(d, e, q) by {
                assert(d1.contains_key(q));
            }
            assert forall|n: Seq<char>| #[trigger] is_backup(e, dir, n) implies is_backup(
                d,
                dir,
                n,
            ) by {
                if dir.push(n) == stage {
                    assert(stage.last() == n);
                }
                assert(d1.contains_key(dir.push(n)));
            }
        }
    }
}

/// The characters of a name that a backup is made under.
spec fn name_char(c: char) -> bool {
    c != '.' && c != '/' && c != '\\'
}

spec fn name_chars(s: Seq<char>) -> bool {
    forall|i: int| 0 <= i < s.len() ==> name_char(#[trigger] s[i])
}

proof fn lemma_two_digits_named(n: int)
    requires
        0 <= n <= 99,
    ensures
        name_chars(two_digits(n)),
{
}

proof fn lemma_stamp_named(y: int, m: int, d: int, h: int, mi: int, s: int)
    requires
        0 <= y,
        1 <= m <= 12,
        1 <= d <= month_days(y, m),
        valid_time(h, mi, s),
    ensures
        name_chars(stamp_of(y, m, d, h, mi, s)),
{
    lemma_two_digits_named(m);
    lemma_two_digits_named(d);
    lemma_two_digits_named(h);
    lemma_two_digits_named(mi);
    lemma_two_digits_named(s);
    if y <= 9999 {
        lemma_two_digits_named(y / 100);
        lemma_two_digits_named(y % 100);
    } else {
        lemma_dec(y as nat);
        assert forall|i: int| 0 <= i < year_text(y).len() implies name_char(
            #[trigger] year_text(y)[i],
        ) by {
            if i > 0 {
                assert(year_text(y)[i] == dec(y as nat)[i - 1]);
                assert(is_digit(dec(y as nat)[i - 1]));
            }
        }
    }
    assert(name_chars(year_text(y)));
}

/// The name that a backup is made under is one that can be restored and deleted.
pub proof fn law_generated_names_are_accepted(name: Seq<char>)
    requires
        is_backup_filename(name),
    ensures
        safe_backup_name(name),
{
    let stamp = choose|stamp: Seq<char>| #[trigger]
        is_stamp(stamp) && name == BACKUP_PREFIX@ + stamp;
    let (y, m, d, h, mi, s) = choose|y: int, m: int, d: int, h: int, mi: int, s: int| #[trigger]
        writes_time(stamp, y, m, d, h, mi, s);
    lemma_stamp_named(y, m, d, h, mi, s);
    reveal_strlit("addons-backup-");
    reveal_strlit("..");
    reveal_strlit("/");
    reveal_strlit("\\");
    assert(name.take(BACKUP_PREFIX@.len() as int) =~= BACKUP_PREFIX@);
    assert(name_chars(name));
    assert forall|p: Seq<char>, i: int|
        p.len() > 0 && !name_char(p[0]) implies !#[trigger] occurs_at(name, p, i) by {
        if occurs_at(name, p, i) {
            assert(name_char(name[i]));
            assert(name.subrange(i, i + p.len())[0] == name[i]);
        }
    }
}

} // verus!
