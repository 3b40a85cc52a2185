//! The names of heroes.
use crate::text;
use crate::text::lowercase;
use vstd::prelude::*;
use vstd::string::*;

verus! {

/// Names under which a hero also appears, each with the hero's own name.
pub struct HeroDataStore {
    pub aliases: Vec<(String, String)>,
}

pub open spec fn alias_views(v: Seq<(String, String)>) -> Seq<(Seq<char>, Seq<char>)> {
    v.map_values(|a: (String, String)| (a.0@, a.1@))
}

impl View for HeroDataStore {
    type V = Seq<(Seq<char>, Seq<char>)>;

    open spec fn view(&self) -> Seq<(Seq<char>, Seq<char>)> {
        alias_views(self.aliases@)
    }
}

/// The hero's own name for a name in lower case: that of the first alias, or the
/// name itself.
pub open spec fn own_name(aliases: Seq<(Seq<char>, Seq<char>)>, key: Seq<char>) -> Seq<char>
    decreases aliases.len(),
{
    if aliases.len() == 0 {
        key
    } else if aliases[0].0 == key {
        aliases[0].1
    } else {
        own_name(aliases.drop_first(), key)
    }
}

/// The aliases that the game's models are known by.
pub open spec fn known_aliases() -> Seq<(Seq<char>, Seq<char>)> {
    seq![("mirage_v2"@, "mirage"@), ("gigawatt_prisoner"@, "gigawatt"@)]
}

/// A name stands for the hero of the first alias that it is, and for itself if it is none.
pub proof fn law_the_first_alias_counts(
    aliases: Seq<(Seq<char>, Seq<char>)>,
    key: Seq<char>,
    i: int,
)
    ensures
        0 <= i < aliases.len() && aliases[i].0 == key && (forall|j: int|
            0 <= j < i ==> (#[trigger] aliases[j]).0 != key) ==> own_name(aliases, key)
            == aliases[i].1,
        (forall|j: int| 0 <= j < aliases.len() ==> (#[trigger] aliases[j]).0 != key) ==> own_name(
            aliases,
            key,
        ) == key,
    decreases aliases.len(),
{
    if aliases.len() > 0 {
        let rest = aliases.drop_first();
        law_the_first_alias_counts(rest, key, i - 1);
        if 0 < i < aliases.len() && aliases[i].0 == key && (forall|j: int|
            0 <= j < i ==> (#[trigger] aliases[j]).0 != key) {
            assert(rest[i - 1] == aliases[i]);
            assert forall|j: int| 0 <= j < i - 1 implies (#[trigger] rest[j]).0 != key by {
                assert(rest[j] == aliases[j + 1]);
            }
            assert(aliases[0].0 != key);
        }
        if forall|j: int| 0 <= j < aliases.len() ==> (#[trigger] aliases[j]).0 != key {
            assert forall|j: int| 0 <= j < rest.len() implies (#[trigger] rest[j]).0 != key by {
                assert(rest[j] == aliases[j + 1]);
            }
            assert(aliases[0].0 != key);
        }
    }
}

/// A model that a hero is known by stands for that hero, and any other name for itself.
pub proof fn law_models_stand_for_their_heroes(key: Seq<char>)
    ensures
        own_name(known_aliases(), key) == if key == "mirage_v2"@ {
            "mirage"@
        } else if key == "gigawatt_prisoner"@ {
            "gigawatt"@
        } else {
            key
        },
{
    let all = known_aliases();
    reveal_with_fuel(own_name, 3);
    assert(all.drop_first() =~= seq![("gigawatt_prisoner"@, "gigawatt"@)]);
    assert(all.drop_first().drop_first().len() == 0);
}

impl HeroDataStore {
    pub fn new() -> (r: HeroDataStore)
        ensures
            r@ == known_aliases(),
    {
        let mut aliases: Vec<(String, String)> = Vec::new();
        aliases.push(("mirage_v2".to_owned(), "mirage".to_owned()));
        aliases.push(("gigawatt_prisoner".to_owned(), "gigawatt".to_owned()));
        assert(alias_views(aliases@) =~= known_aliases());
        HeroDataStore { aliases }
    }

    /// The hero's own name for a name in lower case.
    pub fn name_of(&self, key: &str) -> (r: String)
        ensures
            r@ == own_name(self@, key@),
    {
        let ghost all = self@;
        let mut i: usize = 0;
        assert(all.skip(0) =~= all);
        while i < self.aliases.len()
            invariant
                i <= self.aliases@.len(),
                all == self@,
                own_name(all, key@) == own_name(all.skip(i as int), key@),
            decreases self.aliases@.len() - i,
        {
            proof {
                let a = self.aliases@[i as int];
                assert(all.skip(i as int)[0] == (a.0@, a.1@));
                assert(all.skip(i as int).drop_first() =~= all.skip(i + 1));
            }
            if text::same_text(self.aliases[i].0.as_str(), key) {
                return self.aliases[i].1.clone();
            }
            i = i + 1;
        }
        key.to_owned()
    }

    /// The hero's own name for a name, in capitals or not.
    pub fn normalize_codename(&self, codename: &str) -> (r: String)
        ensures
            r@ == own_name(self@, lowercase(codename@)),
    {
        let lower = codename.to_lowercase();
        self.name_of(lower.as_str())
    }
}

} // verus!
