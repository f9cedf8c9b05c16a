//! Species identities behind the `race1` byte.
//!
//! Every population region stores its species as a single byte (`race1`)
//! plus a sub-race/magnate byte (`race2`). The `race1` values come from
//! `racemodifiers.txt` in the game data.

use vstd::prelude::*;
use vstd::string::StringExecFns;

use crate::text::{
    ascii_lower, ascii_lower_seq, chars_eq_ignore_ascii_case, chars_of, decimal, eq_ignore_ascii_case, push_decimal,
};

verus! {

/// A species type as stored in a region's `race1` byte.
///
/// Sub-races (Tachidi, Evon, Psilon, ...) share their parent's `race1` and
/// are distinguished only by `race2`. [`Species::Unknown`] keeps the parser
/// forward-compatible with modded or unexpected values.
#[derive(Debug, Clone, Copy, PartialEq, Eq, Hash, Structural)]
pub enum Species {
    Human,
    Imsaeis,
    Silicoid,
    Meklar,
    Trilarian,
    /// The Harvester species: bioharvests (eats) cohabiting populations.
    Ithkul,
    Klackon,
    Sakkra,
    Darlok,
    NonCorporeal,
    Protoplasmic,
    Plant,
    Fungal,
    Avian,
    Gargantua,
    Bulrathi,
    Mrrshan,
    Elerian,
    Gnolam,
    Elder,
    ComBot,
    Unknown(u8),
}

/// All species with known `race1` values, in ID order (for pickers).
pub const KNOWN: [Species; 21] = [
    Species::Human,
    Species::Imsaeis,
    Species::Silicoid,
    Species::Meklar,
    Species::Trilarian,
    Species::Ithkul,
    Species::Klackon,
    Species::Sakkra,
    Species::Darlok,
    Species::NonCorporeal,
    Species::Protoplasmic,
    Species::Plant,
    Species::Fungal,
    Species::Avian,
    Species::Gargantua,
    Species::Bulrathi,
    Species::Mrrshan,
    Species::Elerian,
    Species::Gnolam,
    Species::Elder,
    Species::ComBot,
];

/// The known species as a sequence, in ID order.
pub open spec fn known_seq() -> Seq<Species> {
    seq![
        Species::Human,
        Species::Imsaeis,
        Species::Silicoid,
        Species::Meklar,
        Species::Trilarian,
        Species::Ithkul,
        Species::Klackon,
        Species::Sakkra,
        Species::Darlok,
        Species::NonCorporeal,
        Species::Protoplasmic,
        Species::Plant,
        Species::Fungal,
        Species::Avian,
        Species::Gargantua,
        Species::Bulrathi,
        Species::Mrrshan,
        Species::Elerian,
        Species::Gnolam,
        Species::Elder,
        Species::ComBot,
    ]
}

/// The species a `race1` byte denotes.
pub open spec fn species_of(b: u8) -> Species {
    match b {
        0 => Species::Human,
        1 => Species::Imsaeis,
        2 => Species::Silicoid,
        3 => Species::Meklar,
        4 => Species::Trilarian,
        5 => Species::Ithkul,
        6 => Species::Klackon,
        7 => Species::Sakkra,
        8 => Species::Darlok,
        9 => Species::NonCorporeal,
        10 => Species::Protoplasmic,
        11 => Species::Plant,
        12 => Species::Fungal,
        13 => Species::Avian,
        14 => Species::Gargantua,
        15 => Species::Bulrathi,
        16 => Species::Mrrshan,
        17 => Species::Elerian,
        18 => Species::Gnolam,
        19 => Species::Elder,
        20 => Species::ComBot,
        _ => Species::Unknown(b),
    }
}

/// The `race1` byte of a species.
pub open spec fn race1_of(s: Species) -> u8 {
    match s {
        Species::Human => 0,
        Species::Imsaeis => 1,
        Species::Silicoid => 2,
        Species::Meklar => 3,
        Species::Trilarian => 4,
        Species::Ithkul => 5,
        Species::Klackon => 6,
        Species::Sakkra => 7,
        Species::Darlok => 8,
        Species::NonCorporeal => 9,
        Species::Protoplasmic => 10,
        Species::Plant => 11,
        Species::Fungal => 12,
        Species::Avian => 13,
        Species::Gargantua => 14,
        Species::Bulrathi => 15,
        Species::Mrrshan => 16,
        Species::Elerian => 17,
        Species::Gnolam => 18,
        Species::Elder => 19,
        Species::ComBot => 20,
        Species::Unknown(b) => b,
    }
}

/// The display name of a species.
pub open spec fn name_of(s: Species) -> Seq<char> {
    match s {
        Species::Human => "Human"@,
        Species::Imsaeis => "Imsaeis"@,
        Species::Silicoid => "Silicoid"@,
        Species::Meklar => "Meklar"@,
        Species::Trilarian => "Trilarian"@,
        Species::Ithkul => "Ithkul"@,
        Species::Klackon => "Klackon"@,
        Species::Sakkra => "Sakkra"@,
        Species::Darlok => "Darlok"@,
        Species::NonCorporeal => "NonCorporeal"@,
        Species::Protoplasmic => "Protoplasmic"@,
        Species::Plant => "Plant"@,
        Species::Fungal => "Fungal"@,
        Species::Avian => "Avian"@,
        Species::Gargantua => "Gargantua"@,
        Species::Bulrathi => "Bulrathi"@,
        Species::Mrrshan => "Mrrshan"@,
        Species::Elerian => "Elerian"@,
        Species::Gnolam => "Gnolam"@,
        Species::Elder => "Elder"@,
        Species::ComBot => "ComBot"@,
        Species::Unknown(b) => "race1="@ + decimal(b as nat),
    }
}

/// The first species of `list` whose name equals `name` ignoring ASCII case.
pub open spec fn first_named(list: Seq<Species>, name: Seq<char>) -> Option<Species>
    decreases list.len(),
{
    if list.len() == 0 {
        None
    } else if eq_ignore_ascii_case(name_of(list[0]), name) {
        Some(list[0])
    } else {
        first_named(list.drop_first(), name)
    }
}

/// Species by canonical name, ignoring ASCII case.
pub open spec fn species_named(name: Seq<char>) -> Option<Species> {
    first_named(known_seq(), name)
}

/// The parent species of a sub-race name, ignoring ASCII case.
pub open spec fn subrace_parent(name: Seq<char>) -> Option<Species> {
    if eq_ignore_ascii_case(name, "evon"@) || eq_ignore_ascii_case(name, "psilon"@) {
        Some(Species::Human)
    } else if eq_ignore_ascii_case(name, "eoladi"@) {
        Some(Species::Imsaeis)
    } else if eq_ignore_ascii_case(name, "cynoid"@) {
        Some(Species::Meklar)
    } else if eq_ignore_ascii_case(name, "nommo"@) {
        Some(Species::Trilarian)
    } else if eq_ignore_ascii_case(name, "tachidi"@) {
        Some(Species::Klackon)
    } else if eq_ignore_ascii_case(name, "raas"@) || eq_ignore_ascii_case(name, "grendarl"@) {
        Some(Species::Sakkra)
    } else if eq_ignore_ascii_case(name, "alkari"@) {
        Some(Species::Avian)
    } else {
        None
    }
}

/// Species by canonical name or by sub-race name.
pub open spec fn species_or_subrace_named(name: Seq<char>) -> Option<Species> {
    match species_named(name) {
        Some(s) => Some(s),
        None => subrace_parent(name),
    }
}

impl vstd::std_specs::convert::FromSpecImpl<u8> for Species {
    open spec fn obeys_from_spec() -> bool {
        true
    }

    open spec fn from_spec(v: u8) -> Species {
        species_of(v)
    }
}

impl From<u8> for Species {
    fn from(race1: u8) -> (s: Self) {
        match race1 {
            0 => Self::Human,
            1 => Self::Imsaeis,
            2 => Self::Silicoid,
            3 => Self::Meklar,
            4 => Self::Trilarian,
            5 => Self::Ithkul,
            6 => Self::Klackon,
            7 => Self::Sakkra,
            8 => Self::Darlok,
            9 => Self::NonCorporeal,
            10 => Self::Protoplasmic,
            11 => Self::Plant,
            12 => Self::Fungal,
            13 => Self::Avian,
            14 => Self::Gargantua,
            15 => Self::Bulrathi,
            16 => Self::Mrrshan,
            17 => Self::Elerian,
            18 => Self::Gnolam,
            19 => Self::Elder,
            20 => Self::ComBot,
            other => Self::Unknown(other),
        }
    }
}

impl Species {
    /// The `race1` byte written into a region record.
    pub fn race1(self) -> (b: u8)
        ensures
            b == race1_of(self),
    {
        match self {
            Self::Human => 0,
            Self::Imsaeis => 1,
            Self::Silicoid => 2,
            Self::Meklar => 3,
            Self::Trilarian => 4,
            Self::Ithkul => 5,
            Self::Klackon => 6,
            Self::Sakkra => 7,
            Self::Darlok => 8,
            Self::NonCorporeal => 9,
            Self::Protoplasmic => 10,
            Self::Plant => 11,
            Self::Fungal => 12,
            Self::Avian => 13,
            Self::Gargantua => 14,
            Self::Bulrathi => 15,
            Self::Mrrshan => 16,
            Self::Elerian => 17,
            Self::Gnolam => 18,
            Self::Elder => 19,
            Self::ComBot => 20,
            Self::Unknown(other) => other,
        }
    }

    /// The display name, e.g. `"Ithkul"`; unknown values read `race1=<n>`.
    pub fn name(&self) -> (r: String)
        ensures
            r@ == name_of(*self),
    {
        match self {
            Self::Human => String::from_str("Human"),
            Self::Imsaeis => String::from_str("Imsaeis"),
            Self::Silicoid => String::from_str("Silicoid"),
            Self::Meklar => String::from_str("Meklar"),
            Self::Trilarian => String::from_str("Trilarian"),
            Self::Ithkul => String::from_str("Ithkul"),
            Self::Klackon => String::from_str("Klackon"),
            Self::Sakkra => String::from_str("Sakkra"),
            Self::Darlok => String::from_str("Darlok"),
            Self::NonCorporeal => String::from_str("NonCorporeal"),
            Self::Protoplasmic => String::from_str("Protoplasmic"),
            Self::Plant => String::from_str("Plant"),
            Self::Fungal => String::from_str("Fungal"),
            Self::Avian => String::from_str("Avian"),
            Self::Gargantua => String::from_str("Gargantua"),
            Self::Bulrathi => String::from_str("Bulrathi"),
            Self::Mrrshan => String::from_str("Mrrshan"),
            Self::Elerian => String::from_str("Elerian"),
            Self::Gnolam => String::from_str("Gnolam"),
            Self::Elder => String::from_str("Elder"),
            Self::ComBot => String::from_str("ComBot"),
            Self::Unknown(other) => {
                let mut s = String::from_str("race1=");
                push_decimal(&mut s, *other as u64);
                s
            },
        }
    }

    /// Look up a species by its canonical name, case-insensitively.
    pub fn from_name(name: &str) -> (r: Option<Self>)
        ensures
            r == species_named(name@),
    {
        let wanted = chars_of(name);
        let mut i: usize = 0;
        assert(known_seq().subrange(0, 21) =~= known_seq());
        while i < KNOWN.len()
            invariant
                i <= 21,
                wanted@ == name@,
                KNOWN@ == known_seq(),
                species_named(name@) == first_named(known_seq().subrange(i as int, 21), name@),
            decreases 21 - i,
        {
            let species = KNOWN[i];
            let label = species.name();
            let label_chars = chars_of(label.as_str());
            let ghost rest = known_seq().subrange(i as int, 21);
            assert(rest[0] == species);
            assert(rest.drop_first() =~= known_seq().subrange(i + 1, 21));
            if chars_eq_ignore_ascii_case(&label_chars, &wanted) {
                return Some(species);
            }
            i = i + 1;
        }
        assert(known_seq().subrange(21, 21).len() == 0);
        None
    }

    /// Look up a species by canonical name *or* sub-race name.
    ///
    /// Empire records store the sub-race the player picked (e.g. "Tachidi"),
    /// not the `race1`-level species; this maps both to the parent species.
    pub fn from_name_or_subrace(name: &str) -> (r: Option<Self>)
        ensures
            r == species_or_subrace_named(name@),
    {
        if let Some(species) = Self::from_name(name) {
            return Some(species);
        }
        let n = chars_of(name);
        if named(&n, "evon") || named(&n, "psilon") {
            Some(Self::Human)
        } else if named(&n, "eoladi") {
            Some(Self::Imsaeis)
        } else if named(&n, "cynoid") {
            Some(Self::Meklar)
        } else if named(&n, "nommo") {
            Some(Self::Trilarian)
        } else if named(&n, "tachidi") {
            Some(Self::Klackon)
        } else if named(&n, "raas") || named(&n, "grendarl") {
            Some(Self::Sakkra)
        } else if named(&n, "alkari") {
            Some(Self::Avian)
        } else {
            None
        }
    }
}

fn named(n: &[char], label: &str) -> (r: bool)
    ensures
        r == eq_ignore_ascii_case(n@, label@),
{
    let l = chars_of(label);
    chars_eq_ignore_ascii_case(n, &l)
}

/// Reading a species from its byte and writing it back gives the byte.
pub proof fn race1_roundtrip(b: u8)
    ensures
        race1_of(species_of(b)) == b,
{
}

/// Every species other than an `Unknown` that shadows a known byte survives
/// being written as `race1` and read back.
pub proof fn species_roundtrip(s: Species)
    requires
        !(s matches Species::Unknown(b) && b <= 20),
    ensures
        species_of(race1_of(s)) == s,
{
}

proof fn lemma_first_named_case(list: Seq<Species>, a: Seq<char>, b: Seq<char>)
    requires
        ascii_lower_seq(a) == ascii_lower_seq(b),
    ensures
        first_named(list, a) == first_named(list, b),
    decreases list.len(),
{
    if list.len() > 0 {
        lemma_first_named_case(list.drop_first(), a, b);
    }
}

/// Names that agree up to ASCII case name the same species (or none), as
/// canonical names and as sub-race names.
pub proof fn lookup_ignores_ascii_case(a: Seq<char>, b: Seq<char>)
    requires
        ascii_lower_seq(a) == ascii_lower_seq(b),
    ensures
        species_named(a) == species_named(b),
        species_or_subrace_named(a) == species_or_subrace_named(b),
{
    lemma_first_named_case(known_seq(), a, b);
}

/// The first four characters of a name, lowercased.
spec fn lower_head(s: Seq<char>) -> (char, char, char, char) {
    (ascii_lower(s[0]), ascii_lower(s[1]), ascii_lower(s[2]), ascii_lower(s[3]))
}

proof fn lemma_equal_names_share_head(a: Seq<char>, b: Seq<char>)
    requires
        eq_ignore_ascii_case(a, b),
        a.len() >= 4,
    ensures
        lower_head(a) == lower_head(b),
{
    assert(ascii_lower_seq(a).len() == a.len());
    assert(ascii_lower_seq(b).len() == b.len());
    assert forall|k: int| 0 <= k < a.len() implies ascii_lower(#[trigger] a[k]) == ascii_lower(b[k]) by {
        assert(ascii_lower_seq(a)[k] == ascii_lower_seq(b)[k]);
    }
}

proof fn lemma_known_heads()
    ensures
        forall|i: int| 0 <= i < 21 ==> name_of(#[trigger] known_seq()[i]).len() >= 4,
        forall|i: int, j: int|
            0 <= i < 21 && 0 <= j < 21 && i != j ==> lower_head(name_of(#[trigger] known_seq()[i]))
                != lower_head(name_of(#[trigger] known_seq()[j])),
{
    reveal_strlit("Human");
    reveal_strlit("Imsaeis");
    reveal_strlit("Silicoid");
    reveal_strlit("Meklar");
    reveal_strlit("Trilarian");
    reveal_strlit("Ithkul");
    reveal_strlit("Klackon");
    reveal_strlit("Sakkra");
    reveal_strlit("Darlok");
    reveal_strlit("NonCorporeal");
    reveal_strlit("Protoplasmic");
    reveal_strlit("Plant");
    reveal_strlit("Fungal");
    reveal_strlit("Avian");
    reveal_strlit("Gargantua");
    reveal_strlit("Bulrathi");
    reveal_strlit("Mrrshan");
    reveal_strlit("Elerian");
    reveal_strlit("Gnolam");
    reveal_strlit("Elder");
    reveal_strlit("ComBot");
    assert(lower_head(name_of(Species::Human)) == ('h', 'u', 'm', 'a'));
    assert(lower_head(name_of(Species::Imsaeis)) == ('i', 'm', 's', 'a'));
    assert(lower_head(name_of(Species::Silicoid)) == ('s', 'i', 'l', 'i'));
    assert(lower_head(name_of(Species::Meklar)) == ('m', 'e', 'k', 'l'));
    assert(lower_head(name_of(Species::Trilarian)) == ('t', 'r', 'i', 'l'));
    assert(lower_head(name_of(Species::Ithkul)) == ('i', 't', 'h', 'k'));
    assert(lower_head(name_of(Species::Klackon)) == ('k', 'l', 'a', 'c'));
    assert(lower_head(name_of(Species::Sakkra)) == ('s', 'a', 'k', 'k'));
    assert(lower_head(name_of(Species::Darlok)) == ('d', 'a', 'r', 'l'));
    assert(lower_head(name_of(Species::NonCorporeal)) == ('n', 'o', 'n', 'c'));
    assert(lower_head(name_of(Species::Protoplasmic)) == ('p', 'r', 'o', 't'));
    assert(lower_head(name_of(Species::Plant)) == ('p', 'l', 'a', 'n'));
    assert(lower_head(name_of(Species::Fungal)) == ('f', 'u', 'n', 'g'));
    assert(lower_head(name_of(Species::Avian)) == ('a', 'v', 'i', 'a'));
    assert(lower_head(name_of(Species::Gargantua)) == ('g', 'a', 'r', 'g'));
    assert(lower_head(name_of(Species::Bulrathi)) == ('b', 'u', 'l', 'r'));
    assert(lower_head(name_of(Species::Mrrshan)) == ('m', 'r', 'r', 's'));
    assert(lower_head(name_of(Species::Elerian)) == ('e', 'l', 'e', 'r'));
    assert(lower_head(name_of(Species::Gnolam)) == ('g', 'n', 'o', 'l'));
    assert(lower_head(name_of(Species::Elder)) == ('e', 'l', 'd', 'e'));
    assert(lower_head(name_of(Species::ComBot)) == ('c', 'o', 'm', 'b'));
}

proof fn lemma_first_named_at(list: Seq<Species>, name: Seq<char>, i: int)
    requires
        0 <= i < list.len(),
        eq_ignore_ascii_case(name_of(list[i]), name),
        forall|j: int| 0 <= j < i ==> !eq_ignore_ascii_case(name_of(#[trigger] list[j]), name),
    ensures
        first_named(list, name) == Some(list[i]),
    decreases i,
{
    if i > 0 {
        assert(!eq_ignore_ascii_case(name_of(list[0]), name));
        let rest = list.drop_first();
        assert forall|j: int| 0 <= j < i - 1 implies !eq_ignore_ascii_case(
            name_of(#[trigger] rest[j]),
            name,
        ) by {
            assert(rest[j] == list[j + 1]);
        }
        lemma_first_named_at(rest, name, i - 1);
    }
}

/// Every known species is found again by its own display name, both as a
/// canonical name and through the sub-race fallback.
pub proof fn known_species_found_by_name(s: Species)
    requires
        known_seq().contains(s),
    ensures
        species_named(name_of(s)) == Some(s),
        species_or_subrace_named(name_of(s)) == Some(s),
{
    let i = choose|i: int| 0 <= i < known_seq().len() && known_seq()[i] == s;
    lemma_known_heads();
    assert forall|j: int| 0 <= j < i implies !eq_ignore_ascii_case(
        name_of(#[trigger] known_seq()[j]),
        name_of(s),
    ) by {
        if eq_ignore_ascii_case(name_of(known_seq()[j]), name_of(s)) {
            lemma_equal_names_share_head(name_of(known_seq()[j]), name_of(known_seq()[i]));
        }
    }
    lemma_first_named_at(known_seq(), name_of(s), i);
}

/// The `race1` byte of each known species is its position in the
/// ID-ordered table, and each byte below 21 reads as the species at that
/// position.
pub proof fn race1_is_table_position(i: int)
    requires
        0 <= i < known_seq().len(),
    ensures
        race1_of(known_seq()[i]) == i,
        species_of(i as u8) == known_seq()[i],
{
}

} // verus!
