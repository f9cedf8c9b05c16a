//! Command options: species names, decimal numbers, and the argument lists
//! of the `scan`, `replace`, `planet`, `edit` and `turn` commands, plus the
//! option set of the JSON bridge.
//!
//! A malformed argument list yields [`ArgsError::Usage`]; the caller prints
//! the usage text. Other failures carry their message.

use vstd::prelude::*;
use vstd::string::StringExecFns;

use crate::replace::{Scope, ScopeView};
use crate::species::{known_seq, name_of, species_named, Species, KNOWN};
use crate::text::{ascii_lower_seq, chars_of, chars_to_ascii_lower, push_char};

verus! {

/// A decimal digit.
pub open spec fn is_digit(c: char) -> bool {
    '0' <= c <= '9'
}

/// The value of a run of decimal digits.
pub open spec fn digits_value(s: Seq<char>) -> int
    decreases s.len(),
{
    if s.len() == 0 {
        0
    } else {
        digits_value(s.drop_last()) * 10 + (s.last() as int - '0' as int)
    }
}

/// A non-empty run of decimal digits.
pub open spec fn all_digits(s: Seq<char>) -> bool {
    s.len() > 0 && forall|i: int| 0 <= i < s.len() ==> is_digit(#[trigger] s[i])
}

/// The value `str::parse` reads for an unsigned integer: an optional `+`,
/// then decimal digits.
pub open spec fn unsigned_text(s: Seq<char>) -> Option<int> {
    let body = if s.len() > 0 && s[0] == '+' {
        s.drop_first()
    } else {
        s
    };
    if all_digits(body) {
        Some(digits_value(body))
    } else {
        None
    }
}

/// The value `str::parse` reads for a signed integer: an optional sign,
/// then decimal digits.
pub open spec fn signed_text(s: Seq<char>) -> Option<int> {
    if s.len() > 0 && s[0] == '-' {
        if all_digits(s.drop_first()) {
            Some(-digits_value(s.drop_first()))
        } else {
            None
        }
    } else {
        unsigned_text(s)
    }
}

proof fn lemma_digits_nonneg(s: Seq<char>)
    requires
        forall|i: int| 0 <= i < s.len() ==> is_digit(#[trigger] s[i]),
    ensures
        digits_value(s) >= 0,
    decreases s.len(),
{
    if s.len() > 0 {
        lemma_digits_nonneg(s.drop_last());
        assert(is_digit(s[s.len() - 1]));
    }
}

/// The decimal value of `cs[start..]`, when it is a non-empty run of digits
/// no larger than `max`.
fn digits_at(cs: &[char], start: usize, max: u64) -> (r: Option<u64>)
    requires
        start <= cs@.len(),
    ensures
        ({
            let body = cs@.subrange(start as int, cs@.len() as int);
            &&& r == if all_digits(body) && digits_value(body) <= max {
                Some(digits_value(body) as u64)
            } else {
                None
            }
            &&& all_digits(body) ==> 0 <= digits_value(body)
        }),
{
    let ghost body = cs@.subrange(start as int, cs@.len() as int);
    proof {
        if all_digits(body) {
            lemma_digits_nonneg(body);
        }
    }
    if start == cs.len() {
        return None;
    }
    let cap: u128 = max as u128 + 1;
    let mut acc: u128 = 0;
    let mut k: usize = start;
    while k < cs.len()
        invariant
            start <= k <= cs@.len(),
            body == cs@.subrange(start as int, cs@.len() as int),
            cap == max + 1,
            forall|i: int| start <= i < k ==> is_digit(#[trigger] cs@[i]),
            acc == if digits_value(cs@.subrange(start as int, k as int)) > max {
                cap as int
            } else {
                digits_value(cs@.subrange(start as int, k as int))
            },
        decreases cs@.len() - k,
    {
        let c = cs[k];
        if !('0' <= c && c <= '9') {
            assert(body[k - start] == c);
            assert(!all_digits(body));
            return None;
        }
        let d: u128 = (c as u32 - '0' as u32) as u128;
        let ghost prefix = cs@.subrange(start as int, k as int);
        let ghost next = cs@.subrange(start as int, k + 1);
        proof {
            assert(next.drop_last() =~= prefix);
            assert(next.last() == c);
            assert forall|i: int| 0 <= i < prefix.len() implies is_digit(#[trigger] prefix[i]) by {
                assert(prefix[i] == cs@[start + i]);
            }
            lemma_digits_nonneg(prefix);
            assert(digits_value(next) == digits_value(prefix) * 10 + d);
        }
        if acc < cap {
            let n = acc * 10 + d;
            acc = if n > max as u128 {
                cap
            } else {
                n
            };
        }
        k = k + 1;
    }
    proof {
        assert(cs@.subrange(start as int, k as int) =~= body);
        assert forall|i: int| 0 <= i < body.len() implies is_digit(#[trigger] body[i]) by {
            assert(body[i] == cs@[start + i]);
        }
        lemma_digits_nonneg(body);
    }
    if acc > max as u128 {
        None
    } else {
        Some(acc as u64)
    }
}

/// An unsigned decimal no larger than `max`, as `str::parse` reads it.
pub fn parse_unsigned(s: &str, max: u64) -> (r: Option<u64>)
    ensures
        r == match unsigned_text(s@) {
            Some(v) => if v <= max {
                Some(v as u64)
            } else {
                None
            },
            None => None,
        },
        unsigned_text(s@) matches Some(v) ==> v >= 0,
{
    let cs = chars_of(s);
    let start: usize = if cs.len() > 0 && cs[0] == '+' {
        1
    } else {
        0
    };
    proof {
        if start == 1 {
            assert(cs@.subrange(1, cs@.len() as int) =~= s@.drop_first());
        } else {
            assert(cs@.subrange(0, cs@.len() as int) =~= s@);
        }
    }
    digits_at(&cs, start, max)
}

/// A signed 32-bit decimal, as `str::parse::<i32>` reads it.
pub fn parse_i32(s: &str) -> (r: Option<i32>)
    ensures
        r == match signed_text(s@) {
            Some(v) => if i32::MIN <= v <= i32::MAX {
                Some(v as i32)
            } else {
                None
            },
            None => None,
        },
{
    let cs = chars_of(s);
    if cs.len() > 0 && cs[0] == '-' {
        proof {
            assert(cs@.subrange(1, cs@.len() as int) =~= s@.drop_first());
        }
        match digits_at(&cs, 1, 0x8000_0000) {
            Some(v) => {
                let n: i64 = 0 - v as i64;
                Some(n as i32)
            },
            None => None,
        }
    } else {
        match parse_unsigned(s, 0x7FFF_FFFF) {
            Some(v) => Some(v as i32),
            None => None,
        }
    }
}

/// Whether `s` reads exactly `lit`.
pub fn text_is(s: &str, lit: &str) -> (b: bool)
    ensures
        b == (s@ == lit@),
{
    let a = chars_of(s);
    let b = chars_of(lit);
    if a.len() != b.len() {
        return false;
    }
    let mut i: usize = 0;
    while i < a.len()
        invariant
            a@ == s@,
            b@ == lit@,
            a@.len() == b@.len(),
            i <= a@.len(),
            forall|k: int| 0 <= k < i ==> a@[k] == b@[k],
        decreases a@.len() - i,
    {
        if a[i] != b[i] {
            return false;
        }
        i = i + 1;
    }
    assert(a@ =~= b@);
    true
}

/// An option flag: starts with `-`.
pub open spec fn flag_like(s: Seq<char>) -> bool {
    s.len() > 0 && s[0] == '-'
}

/// Whether the argument starts with `-`.
pub fn is_flag(s: &str) -> (b: bool)
    ensures
        b == flag_like(s@),
{
    let cs = chars_of(s);
    cs.len() > 0 && cs[0] == '-'
}

/// The parts joined with `sep` between them.
pub open spec fn joined(parts: Seq<Seq<char>>, sep: Seq<char>) -> Seq<char>
    decreases parts.len(),
{
    if parts.len() == 0 {
        Seq::empty()
    } else if parts.len() == 1 {
        parts[0]
    } else {
        joined(parts.drop_last(), sep) + sep + parts.last()
    }
}

/// The known species' names in lowercase, comma-separated, in ID order.
pub open spec fn known_names_text() -> Seq<char> {
    joined(known_seq().map_values(|s: Species| ascii_lower_seq(name_of(s))), ", "@)
}

/// The message for a species name that is not known.
pub open spec fn unknown_species_text(name: Seq<char>) -> Seq<char> {
    "unknown species '"@ + name + "'; expected one of: "@ + known_names_text()
}

/// The known species' names in lowercase, comma-separated.
fn known_names() -> (s: String)
    ensures
        s@ == known_names_text(),
{
    let ghost parts = known_seq().map_values(|s: Species| ascii_lower_seq(name_of(s)));
    let mut out = String::new();
    let mut i: usize = 0;
    assert(KNOWN@ == known_seq());
    while i < KNOWN.len()
        invariant
            KNOWN@ == known_seq(),
            parts == known_seq().map_values(|s: Species| ascii_lower_seq(name_of(s))),
            i <= 21,
            out@ == joined(parts.subrange(0, i as int), ", "@),
        decreases 21 - i,
    {
        let label = KNOWN[i].name();
        let chars = chars_of(label.as_str());
        let lower = chars_to_ascii_lower(&chars);
        let ghost before = out@;
        if i > 0 {
            out.append(", ");
        }
        let mut k: usize = 0;
        while k < lower.len()
            invariant
                k <= lower@.len(),
                out@ == (if i > 0 {
                    before + ", "@
                } else {
                    before
                }) + lower@.subrange(0, k as int),
            decreases lower@.len() - k,
        {
            push_char(&mut out, lower[k]);
            assert(lower@.subrange(0, k + 1) =~= lower@.subrange(0, k as int).push(lower@[k as int]));
            k = k + 1;
        }
        proof {
            assert(lower@.subrange(0, lower@.len() as int) =~= lower@);
            let next = parts.subrange(0, i + 1);
            assert(next.drop_last() =~= parts.subrange(0, i as int));
            assert(next.last() == lower@);
            if i == 0 {
                assert(before =~= Seq::<char>::empty());
                assert(Seq::<char>::empty() + lower@ =~= lower@);
            }
        }
        i = i + 1;
    }
    assert(parts.subrange(0, 21) =~= parts);
    out
}

/// The species a command-line name denotes, case-insensitively; an unknown
/// name fails with the list of known ones.
pub fn parse_species(name: &str) -> (r: Result<Species, String>)
    ensures
        species_named(name@) matches Some(s) ==> r == Ok::<Species, String>(s),
        species_named(name@) is None ==> (r matches Err(m) && m@ == unknown_species_text(name@)),
{
    match Species::from_name(name) {
        Some(found) => Ok(found),
        None => {
            let mut m = String::from_str("unknown species '");
            m.append(name);
            m.append("'; expected one of: ");
            let known = known_names();
            m.append(known.as_str());
            Err(m)
        },
    }
}

/// The kind of number an option expects.
#[derive(Debug, Clone, Copy, PartialEq, Eq, Structural)]
pub enum NumberKind {
    /// A `usize` (region index).
    Index,
    /// A `u8` (owner id, terrain index).
    Byte,
    /// A `u32` (turn).
    Turn,
    /// An `i32` (ecosystem rating).
    Signed,
    /// A floating-point number (population).
    Float,
}

/// Why an argument list was refused.
#[derive(Debug, PartialEq, Eq)]
pub enum ArgsError {
    /// The arguments do not follow the usage: the caller prints it.
    Usage,
    /// A refusal with its message.
    Message(String),
    /// An option's value is not a number of the expected kind.
    BadNumber { text: String, kind: NumberKind },
}

/// An argument refusal as a value.
pub enum ArgsFail {
    Usage,
    Message(Seq<char>),
    BadNumber { text: Seq<char>, kind: NumberKind },
}

impl View for ArgsError {
    type V = ArgsFail;

    open spec fn view(&self) -> ArgsFail {
        match self {
            ArgsError::Usage => ArgsFail::Usage,
            ArgsError::Message(m) => ArgsFail::Message(m@),
            ArgsError::BadNumber { text, kind } => ArgsFail::BadNumber { text: text@, kind: *kind },
        }
    }
}

/// The argument at `at`, the value of the option before it; `None` when the
/// list ends first.
pub fn next_value(args: &[String], at: usize) -> (r: Option<&String>)
    ensures
        at < args@.len() ==> r == Some(&args@[at as int]),
        at >= args@.len() ==> r is None,
{
    if at < args.len() {
        Some(&args[at])
    } else {
        None
    }
}

/// The views of a list of strings.
pub open spec fn texts(v: Seq<String>) -> Seq<Seq<char>> {
    v.map_values(|t: String| t@)
}

/// The options of `replace`.
#[derive(Debug)]
pub struct ReplaceArgs {
    pub path: Option<String>,
    pub target: Species,
    pub replacement: Species,
    pub planets: Vec<String>,
    pub protect: Option<Species>,
    pub everywhere: bool,
    pub mine: bool,
    pub dry_run: bool,
}

/// The options of `replace` as a value.
pub struct ReplaceArgsView {
    pub path: Option<Seq<char>>,
    pub target: Species,
    pub replacement: Species,
    pub planets: Seq<Seq<char>>,
    pub protect: Option<Species>,
    pub everywhere: bool,
    pub mine: bool,
    pub dry_run: bool,
}

/// An optional string as a value.
pub open spec fn opt_text(o: Option<String>) -> Option<Seq<char>> {
    match o {
        Some(t) => Some(t@),
        None => None,
    }
}

impl View for ReplaceArgs {
    type V = ReplaceArgsView;

    open spec fn view(&self) -> ReplaceArgsView {
        ReplaceArgsView {
            path: opt_text(self.path),
            target: self.target,
            replacement: self.replacement,
            planets: texts(self.planets@),
            protect: self.protect,
            everywhere: self.everywhere,
            mine: self.mine,
            dry_run: self.dry_run,
        }
    }
}

/// The options of `replace` before any argument: Ithkul to Klackon on
/// shared planets.
pub open spec fn replace_defaults() -> ReplaceArgsView {
    ReplaceArgsView {
        path: None,
        target: Species::Ithkul,
        replacement: Species::Klackon,
        planets: Seq::empty(),
        protect: None,
        everywhere: false,
        mine: false,
        dry_run: false,
    }
}

/// The species an option value names, or the refusal for it.
pub open spec fn species_value(v: Seq<char>) -> Result<Species, ArgsFail> {
    match species_named(v) {
        Some(s) => Ok(s),
        None => Err(ArgsFail::Message(unknown_species_text(v))),
    }
}

/// Read the `replace` arguments from `i` on, into `acc`.
pub open spec fn replace_from(args: Seq<Seq<char>>, i: int, acc: ReplaceArgsView) -> Result<ReplaceArgsView, ArgsFail>
    decreases args.len() - i,
{
    if i < 0 || i >= args.len() {
        Ok(acc)
    } else {
        let a = args[i];
        if a == "--target"@ || a == "--replace-with"@ || a == "--protect"@ || a == "--planet"@ {
            if i + 1 >= args.len() {
                Err(ArgsFail::Usage)
            } else if a == "--planet"@ {
                replace_from(args, i + 2, ReplaceArgsView { planets: acc.planets.push(args[i + 1]), ..acc })
            } else {
                match species_value(args[i + 1]) {
                    Err(e) => Err(e),
                    Ok(s) => replace_from(
                        args,
                        i + 2,
                        if a == "--target"@ {
                            ReplaceArgsView { target: s, ..acc }
                        } else if a == "--replace-with"@ {
                            ReplaceArgsView { replacement: s, ..acc }
                        } else {
                            ReplaceArgsView { protect: Some(s), ..acc }
                        },
                    ),
                }
            }
        } else if a == "--all"@ {
            replace_from(args, i + 1, ReplaceArgsView { everywhere: true, ..acc })
        } else if a == "--mine"@ {
            replace_from(args, i + 1, ReplaceArgsView { mine: true, ..acc })
        } else if a == "--dry-run"@ {
            replace_from(args, i + 1, ReplaceArgsView { dry_run: true, ..acc })
        } else if !flag_like(a) {
            replace_from(args, i + 1, ReplaceArgsView { path: Some(a), ..acc })
        } else {
            Err(ArgsFail::Usage)
        }
    }
}

/// The `replace` options an argument list gives, or why it is refused: the
/// arguments in order, then the refusal to protect the target itself and to
/// replace a species with itself.
pub open spec fn replace_args_of(args: Seq<Seq<char>>) -> Result<ReplaceArgsView, ArgsFail> {
    match replace_from(args, 0, replace_defaults()) {
        Err(e) => Err(e),
        Ok(p) => if p.protect == Some(p.target) {
            Err(ArgsFail::Message("cannot protect "@ + name_of(p.target) + " from themselves"@))
        } else if p.target == p.replacement {
            Err(ArgsFail::Message("target and replacement are both "@ + name_of(p.target)))
        } else {
            Ok(p)
        },
    }
}

/// A parse result as a value.
pub open spec fn replace_result(r: Result<ReplaceArgs, ArgsError>) -> Result<ReplaceArgsView, ArgsFail> {
    match r {
        Ok(p) => Ok(p@),
        Err(e) => Err(e@),
    }
}

/// A species option value, or the refusal for it.
fn species_arg(v: &String) -> (r: Result<Species, ArgsError>)
    ensures
        match species_value(v@) {
            Ok(s) => r == Ok::<Species, ArgsError>(s),
            Err(e) => r matches Err(f) && f@ == e,
        },
{
    match parse_species(v.as_str()) {
        Ok(s) => Ok(s),
        Err(m) => Err(ArgsError::Message(m)),
    }
}

/// Read the arguments of `replace`.
pub fn parse_replace_args(args: &[String]) -> (r: Result<ReplaceArgs, ArgsError>)
    ensures
        replace_result(r) == replace_args_of(texts(args@)),
{
    let ghost all = texts(args@);
    let mut parsed = ReplaceArgs {
        path: None,
        target: Species::Ithkul,
        replacement: Species::Klackon,
        planets: Vec::new(),
        protect: None,
        everywhere: false,
        mine: false,
        dry_run: false,
    };
    assert(texts(parsed.planets@) =~= Seq::<Seq<char>>::empty());
    assert(parsed@ == replace_defaults());
    let mut i: usize = 0;
    while i < args.len()
        invariant
            all == texts(args@),
            i <= args@.len(),
            replace_from(all, 0, replace_defaults()) == replace_from(all, i as int, parsed@),
        decreases args@.len() - i,
    {
        let arg = args[i].as_str();
        assert(all[i as int] == arg@);
        if text_is(arg, "--target") || text_is(arg, "--replace-with") || text_is(arg, "--protect") || text_is(arg, "--planet") {
            let value = match next_value(args, i + 1) {
                Some(v) => v,
                None => return Err(ArgsError::Usage),
            };
            assert(all[i + 1] == value@);
            if text_is(arg, "--planet") {
                let ghost before = parsed@;
                let copy = value.clone();
                parsed.planets.push(copy);
                assert(texts(parsed.planets@) =~= before.planets.push(value@));
                assert(parsed@ == ReplaceArgsView { planets: before.planets.push(value@), ..before });
            } else {
                let s = match species_arg(value) {
                    Ok(s) => s,
                    Err(e) => return Err(e),
                };
                if text_is(arg, "--target") {
                    parsed.target = s;
                } else if text_is(arg, "--replace-with") {
                    parsed.replacement = s;
                } else {
                    parsed.protect = Some(s);
                }
            }
            i = i + 2;
        } else if text_is(arg, "--all") {
            parsed.everywhere = true;
            i = i + 1;
        } else if text_is(arg, "--mine") {
            parsed.mine = true;
            i = i + 1;
        } else if text_is(arg, "--dry-run") {
            parsed.dry_run = true;
            i = i + 1;
        } else if !is_flag(arg) {
            parsed.path = Some(args[i].clone());
            i = i + 1;
        } else {
            return Err(ArgsError::Usage);
        }
    }
    if parsed.protect == Some(parsed.target) {
        let mut m = String::from_str("cannot protect ");
        let name = parsed.target.name();
        m.append(name.as_str());
        m.append(" from themselves");
        return Err(ArgsError::Message(m));
    }
    if parsed.target == parsed.replacement {
        let mut m = String::from_str("target and replacement are both ");
        let name = parsed.target.name();
        m.append(name.as_str());
        return Err(ArgsError::Message(m));
    }
    Ok(parsed)
}

/// The options of `edit`. `pop` is the population as written; the caller
/// has checked that it reads as a number.
#[derive(Debug)]
pub struct EditArgs {
    pub path: Option<String>,
    pub planet: Option<String>,
    pub region: Option<usize>,
    pub pop: Option<String>,
    pub owner: Option<u8>,
    pub terrain: Option<u8>,
    pub eco: Option<i32>,
    pub dry_run: bool,
}

/// The options of `edit` as a value.
pub struct EditArgsView {
    pub path: Option<Seq<char>>,
    pub planet: Option<Seq<char>>,
    pub region: Option<usize>,
    pub pop: Option<Seq<char>>,
    pub owner: Option<u8>,
    pub terrain: Option<u8>,
    pub eco: Option<i32>,
    pub dry_run: bool,
}

impl View for EditArgs {
    type V = EditArgsView;

    open spec fn view(&self) -> EditArgsView {
        EditArgsView {
            path: opt_text(self.path),
            planet: opt_text(self.planet),
            region: self.region,
            pop: opt_text(self.pop),
            owner: self.owner,
            terrain: self.terrain,
            eco: self.eco,
            dry_run: self.dry_run,
        }
    }
}

/// No option given yet.
pub open spec fn edit_defaults() -> EditArgsView {
    EditArgsView {
        path: None,
        planet: None,
        region: None,
        pop: None,
        owner: None,
        terrain: None,
        eco: None,
        dry_run: false,
    }
}

/// An unsigned option value up to `max`.
pub open spec fn unsigned_value(v: Seq<char>, max: int) -> Option<int> {
    match unsigned_text(v) {
        Some(n) => if n <= max {
            Some(n)
        } else {
            None
        },
        None => None,
    }
}

/// An `i32` option value.
pub open spec fn signed_value(v: Seq<char>) -> Option<int> {
    match signed_text(v) {
        Some(n) => if i32::MIN <= n <= i32::MAX {
            Some(n)
        } else {
            None
        },
        None => None,
    }
}

/// The refusal of a value that is not a number of kind `kind`.
pub open spec fn bad_number(v: Seq<char>, kind: NumberKind) -> ArgsFail {
    ArgsFail::BadNumber { text: v, kind }
}

/// Read the `edit` arguments from `i` on, into `acc`; `floats` says which
/// arguments read as floating-point numbers.
pub open spec fn edit_from(args: Seq<Seq<char>>, floats: Seq<bool>, i: int, acc: EditArgsView) -> Result<
    EditArgsView,
    ArgsFail,
>
    decreases args.len() - i,
{
    if i < 0 || i >= args.len() {
        Ok(acc)
    } else {
        let a = args[i];
        if a == "--planet"@ || a == "--region"@ || a == "--pop"@ || a == "--owner"@ || a == "--terrain"@
            || a == "--eco"@ {
            if i + 1 >= args.len() {
                Err(ArgsFail::Usage)
            } else {
                let v = args[i + 1];
                if a == "--planet"@ {
                    edit_from(args, floats, i + 2, EditArgsView { planet: Some(v), ..acc })
                } else if a == "--region"@ {
                    match unsigned_value(v, usize::MAX as int) {
                        Some(n) => edit_from(args, floats, i + 2, EditArgsView { region: Some(n as usize), ..acc }),
                        None => Err(bad_number(v, NumberKind::Index)),
                    }
                } else if a == "--pop"@ {
                    if floats[i + 1] {
                        edit_from(args, floats, i + 2, EditArgsView { pop: Some(v), ..acc })
                    } else {
                        Err(bad_number(v, NumberKind::Float))
                    }
                } else if a == "--eco"@ {
                    match signed_value(v) {
                        Some(n) => edit_from(args, floats, i + 2, EditArgsView { eco: Some(n as i32), ..acc }),
                        None => Err(bad_number(v, NumberKind::Signed)),
                    }
                } else {
                    match unsigned_value(v, 255) {
                        Some(n) => edit_from(
                            args,
                            floats,
                            i + 2,
                            if a == "--owner"@ {
                                EditArgsView { owner: Some(n as u8), ..acc }
                            } else {
                                EditArgsView { terrain: Some(n as u8), ..acc }
                            },
                        ),
                        None => Err(bad_number(v, NumberKind::Byte)),
                    }
                }
            }
        } else if a == "--dry-run"@ {
            edit_from(args, floats, i + 1, EditArgsView { dry_run: true, ..acc })
        } else if !flag_like(a) {
            edit_from(args, floats, i + 1, EditArgsView { path: Some(a), ..acc })
        } else {
            Err(ArgsFail::Usage)
        }
    }
}

/// A parse result as a value.
pub open spec fn edit_result(r: Result<EditArgs, ArgsError>) -> Result<EditArgsView, ArgsFail> {
    match r {
        Ok(p) => Ok(p@),
        Err(e) => Err(e@),
    }
}

/// A refusal for a value that is not a number of kind `kind`.
fn number_error(v: &String, kind: NumberKind) -> (e: ArgsError)
    ensures
        e@ == bad_number(v@, kind),
{
    ArgsError::BadNumber { text: v.clone(), kind }
}

/// Read the arguments of `edit`; `floats[i]` says whether `args[i]` reads
/// as a floating-point number.
pub fn parse_edit_args(args: &[String], floats: &[bool]) -> (r: Result<EditArgs, ArgsError>)
    requires
        floats@.len() == args@.len(),
    ensures
        edit_result(r) == edit_from(texts(args@), floats@, 0, edit_defaults()),
{
    let ghost all = texts(args@);
    let mut parsed = EditArgs {
        path: None,
        planet: None,
        region: None,
        pop: None,
        owner: None,
        terrain: None,
        eco: None,
        dry_run: false,
    };
    let mut i: usize = 0;
    while i < args.len()
        invariant
            all == texts(args@),
            floats@.len() == args@.len(),
            i <= args@.len(),
            edit_from(all, floats@, 0, edit_defaults()) == edit_from(all, floats@, i as int, parsed@),
        decreases args@.len() - i,
    {
        let arg = args[i].as_str();
        assert(all[i as int] == arg@);
        if text_is(arg, "--planet") || text_is(arg, "--region") || text_is(arg, "--pop") || text_is(arg, "--owner")
            || text_is(arg, "--terrain") || text_is(arg, "--eco") {
            let value = match next_value(args, i + 1) {
                Some(v) => v,
                None => return Err(ArgsError::Usage),
            };
            assert(all[i + 1] == value@);
            if text_is(arg, "--planet") {
                parsed.planet = Some(value.clone());
            } else if text_is(arg, "--region") {
                match parse_unsigned(value.as_str(), usize::MAX as u64) {
                    Some(n) => parsed.region = Some(n as usize),
                    None => return Err(number_error(value, NumberKind::Index)),
                }
            } else if text_is(arg, "--pop") {
                if floats[i + 1] {
                    parsed.pop = Some(value.clone());
                } else {
                    return Err(number_error(value, NumberKind::Float));
                }
            } else if text_is(arg, "--eco") {
                match parse_i32(value.as_str()) {
                    Some(n) => parsed.eco = Some(n),
                    None => return Err(number_error(value, NumberKind::Signed)),
                }
            } else {
                match parse_unsigned(value.as_str(), 255) {
                    Some(n) => {
                        if text_is(arg, "--owner") {
                            parsed.owner = Some(n as u8);
                        } else {
                            parsed.terrain = Some(n as u8);
                        }
                    },
                    None => return Err(number_error(value, NumberKind::Byte)),
                }
            }
            i = i + 2;
        } else if text_is(arg, "--dry-run") {
            parsed.dry_run = true;
            i = i + 1;
        } else if !is_flag(arg) {
            parsed.path = Some(args[i].clone());
            i = i + 1;
        } else {
            return Err(ArgsError::Usage);
        }
    }
    Ok(parsed)
}

/// A complete `edit` request: a planet, a region, and at least one field.
#[derive(Debug)]
pub struct EditRequest {
    pub path: Option<String>,
    pub planet: String,
    pub region: usize,
    pub pop: Option<String>,
    pub owner: Option<u8>,
    pub terrain: Option<u8>,
    pub eco: Option<i32>,
    pub dry_run: bool,
}

/// The message when `edit` is given no field to change.
pub open spec fn nothing_to_edit_text() -> Seq<char> {
    "nothing to edit: pass at least one of --pop, --owner, --terrain, --eco"@
}

/// Read the arguments of `edit` and check that they name a planet, a
/// region, and at least one field to change.
pub fn edit_request(args: &[String], floats: &[bool]) -> (r: Result<EditRequest, ArgsError>)
    requires
        floats@.len() == args@.len(),
    ensures
        match edit_from(texts(args@), floats@, 0, edit_defaults()) {
            Err(e) => r matches Err(f) && f@ == e,
            Ok(p) => if p.planet is None || p.region is None {
                r matches Err(f) && f@ == ArgsFail::Usage
            } else if p.pop is None && p.owner is None && p.terrain is None && p.eco is None {
                r matches Err(f) && f@ == ArgsFail::Message(nothing_to_edit_text())
            } else {
                r matches Ok(q) && opt_text(q.path) == p.path && Some(q.planet@) == p.planet && Some(q.region)
                    == p.region && opt_text(q.pop) == p.pop && q.owner == p.owner && q.terrain == p.terrain
                    && q.eco == p.eco && q.dry_run == p.dry_run
            },
        },
{
    let parsed = match parse_edit_args(args, floats) {
        Ok(p) => p,
        Err(e) => return Err(e),
    };
    let (planet, region) = match (parsed.planet, parsed.region) {
        (Some(planet), Some(region)) => (planet, region),
        _ => return Err(ArgsError::Usage),
    };
    if parsed.pop.is_none() && parsed.owner.is_none() && parsed.terrain.is_none() && parsed.eco.is_none() {
        return Err(
            ArgsError::Message(
                String::from_str("nothing to edit: pass at least one of --pop, --owner, --terrain, --eco"),
            ),
        );
    }
    Ok(
        EditRequest {
            path: parsed.path,
            planet,
            region,
            pop: parsed.pop,
            owner: parsed.owner,
            terrain: parsed.terrain,
            eco: parsed.eco,
            dry_run: parsed.dry_run,
        },
    )
}

/// The options of `turn`: the save, and the turn to set if any.
#[derive(Debug)]
pub struct TurnArgs {
    pub path: Option<String>,
    pub set: Option<u32>,
}

/// Read the `turn` arguments from `i` on: `--set <n>` and a path.
pub open spec fn turn_from(args: Seq<Seq<char>>, i: int, path: Option<Seq<char>>, set: Option<u32>) -> Result<
    (Option<Seq<char>>, Option<u32>),
    ArgsFail,
>
    decreases args.len() - i,
{
    if i < 0 || i >= args.len() {
        Ok((path, set))
    } else if args[i] == "--set"@ {
        if i + 1 >= args.len() {
            Err(ArgsFail::Usage)
        } else {
            match unsigned_value(args[i + 1], u32::MAX as int) {
                Some(n) => turn_from(args, i + 2, path, Some(n as u32)),
                None => Err(bad_number(args[i + 1], NumberKind::Turn)),
            }
        }
    } else if !flag_like(args[i]) {
        turn_from(args, i + 1, Some(args[i]), set)
    } else {
        Err(ArgsFail::Usage)
    }
}

/// Read the arguments of `turn`.
pub fn parse_turn_args(args: &[String]) -> (r: Result<TurnArgs, ArgsError>)
    ensures
        match turn_from(texts(args@), 0, None, None) {
            Ok((path, set)) => r matches Ok(t) && opt_text(t.path) == path && t.set == set,
            Err(e) => r matches Err(f) && f@ == e,
        },
{
    let ghost all = texts(args@);
    let mut path: Option<String> = None;
    let mut set: Option<u32> = None;
    let mut i: usize = 0;
    while i < args.len()
        invariant
            all == texts(args@),
            i <= args@.len(),
            turn_from(all, 0, None, None) == turn_from(all, i as int, opt_text(path), set),
        decreases args@.len() - i,
    {
        let arg = args[i].as_str();
        assert(all[i as int] == arg@);
        if text_is(arg, "--set") {
            let value = match next_value(args, i + 1) {
                Some(v) => v,
                None => return Err(ArgsError::Usage),
            };
            assert(all[i + 1] == value@);
            match parse_unsigned(value.as_str(), 0xFFFF_FFFF) {
                Some(n) => set = Some(n as u32),
                None => return Err(number_error(value, NumberKind::Turn)),
            }
            i = i + 2;
        } else if !is_flag(arg) {
            path = Some(args[i].clone());
            i = i + 1;
        } else {
            return Err(ArgsError::Usage);
        }
    }
    Ok(TurnArgs { path, set })
}

/// The options of `scan`: the save, and the species to report on.
#[derive(Debug)]
pub struct ScanArgs {
    pub path: Option<String>,
    pub target: Species,
}

/// Read the `scan` arguments from `i` on: `--target <species>` and a path.
pub open spec fn scan_from(args: Seq<Seq<char>>, i: int, path: Option<Seq<char>>, target: Species) -> Result<
    (Option<Seq<char>>, Species),
    ArgsFail,
>
    decreases args.len() - i,
{
    if i < 0 || i >= args.len() {
        Ok((path, target))
    } else if args[i] == "--target"@ {
        if i + 1 >= args.len() {
            Err(ArgsFail::Usage)
        } else {
            match species_value(args[i + 1]) {
                Ok(s) => scan_from(args, i + 2, path, s),
                Err(e) => Err(e),
            }
        }
    } else if !flag_like(args[i]) {
        scan_from(args, i + 1, Some(args[i]), target)
    } else {
        Err(ArgsFail::Usage)
    }
}

/// Read the arguments of `scan`; the target defaults to the Ithkul.
pub fn parse_scan_args(args: &[String]) -> (r: Result<ScanArgs, ArgsError>)
    ensures
        match scan_from(texts(args@), 0, None, Species::Ithkul) {
            Ok((path, target)) => r matches Ok(t) && opt_text(t.path) == path && t.target == target,
            Err(e) => r matches Err(f) && f@ == e,
        },
{
    let ghost all = texts(args@);
    let mut path: Option<String> = None;
    let mut target = Species::Ithkul;
    let mut i: usize = 0;
    while i < args.len()
        invariant
            all == texts(args@),
            i <= args@.len(),
            scan_from(all, 0, None, Species::Ithkul) == scan_from(all, i as int, opt_text(path), target),
        decreases args@.len() - i,
    {
        let arg = args[i].as_str();
        assert(all[i as int] == arg@);
        if text_is(arg, "--target") {
            let value = match next_value(args, i + 1) {
                Some(v) => v,
                None => return Err(ArgsError::Usage),
            };
            assert(all[i + 1] == value@);
            target = match species_arg(value) {
                Ok(s) => s,
                Err(e) => return Err(e),
            };
            i = i + 2;
        } else if !is_flag(arg) {
            path = Some(args[i].clone());
            i = i + 1;
        } else {
            return Err(ArgsError::Usage);
        }
    }
    Ok(ScanArgs { path, target })
}

/// The arguments that are not options, in order.
pub open spec fn positionals(args: Seq<Seq<char>>) -> Seq<Seq<char>>
    decreases args.len(),
{
    if args.len() == 0 {
        Seq::empty()
    } else {
        positionals(args.drop_last()) + if flag_like(args.last()) {
            Seq::empty()
        } else {
            seq![args.last()]
        }
    }
}

/// The options of `planet`: a name to look for, and the save.
#[derive(Debug)]
pub struct PlanetArgs {
    pub name: String,
    pub path: Option<String>,
}

/// Read the arguments of `planet`: the first argument that is not an
/// option is the name, the second the save; options are ignored.
pub fn parse_planet_args(args: &[String]) -> (r: Result<PlanetArgs, ArgsError>)
    ensures
        positionals(texts(args@)).len() == 0 ==> (r matches Err(f) && f@ == ArgsFail::Usage),
        positionals(texts(args@)).len() > 0 ==> (r matches Ok(p) && p.name@ == positionals(texts(args@))[0]
            && opt_text(p.path) == if positionals(texts(args@)).len() > 1 {
            Some(positionals(texts(args@))[1])
        } else {
            None
        }),
{
    let ghost all = texts(args@);
    let mut found: Vec<String> = Vec::new();
    let mut i: usize = 0;
    while i < args.len()
        invariant
            all == texts(args@),
            i <= args@.len(),
            texts(found@) == positionals(all.subrange(0, i as int)),
        decreases args@.len() - i,
    {
        let ghost next = all.subrange(0, i + 1);
        assert(next.drop_last() =~= all.subrange(0, i as int));
        assert(next.last() == args@[i as int]@);
        if !is_flag(args[i].as_str()) {
            let copy = args[i].clone();
            found.push(copy);
            assert(texts(found@) =~= positionals(next));
        } else {
            assert(positionals(next) =~= positionals(all.subrange(0, i as int)));
        }
        i = i + 1;
    }
    assert(all.subrange(0, all.len() as int) =~= all);
    if found.len() == 0 {
        return Err(ArgsError::Usage);
    }
    let name = found[0].clone();
    let path = if found.len() > 1 {
        Some(found[1].clone())
    } else {
        None
    };
    Ok(PlanetArgs { name, path })
}

/// The options of a replacement requested as data: species names, a scope
/// name (`shared`, `everywhere` or `planets`), planet names, a protected
/// species name, and the ownership filter.
#[derive(Debug)]
pub struct ReplaceOptions {
    pub target: String,
    pub replacement: String,
    pub scope: String,
    pub planets: Vec<String>,
    pub protect: Option<String>,
    pub mine: bool,
}

/// A replacement request with its names resolved.
#[derive(Debug)]
pub struct Resolved {
    pub target: Species,
    pub replacement: Species,
    pub scope: Scope,
    pub mine: bool,
}

/// The message for an unknown species name.
pub open spec fn unknown_name_text(name: Seq<char>) -> Seq<char> {
    "unknown species '"@ + name + "'"@
}

/// What a request resolves to: the target, the replacement and the scope,
/// or the message of the first thing wrong with it.
pub open spec fn resolve_of(o: ReplaceOptions) -> Result<(Species, Species, ScopeView), Seq<char>> {
    match species_named(o.target@) {
        None => Err(unknown_name_text(o.target@)),
        Some(t) => match species_named(o.replacement@) {
            None => Err(unknown_name_text(o.replacement@)),
            Some(r) => if t == r {
                Err("target and replacement are the same species"@)
            } else if o.scope@ == "shared"@ {
                match opt_text(o.protect) {
                    Some(name) => if name.len() == 0 {
                        Ok((t, r, ScopeView::Shared { protect: None }))
                    } else {
                        match species_named(name) {
                            None => Err(unknown_name_text(name)),
                            Some(p) => Ok((t, r, ScopeView::Shared { protect: Some(p) })),
                        }
                    },
                    None => Ok((t, r, ScopeView::Shared { protect: None })),
                }
            } else if o.scope@ == "everywhere"@ {
                Ok((t, r, ScopeView::Everywhere))
            } else if o.scope@ == "planets"@ {
                if o.planets@.len() == 0 {
                    Err("no planet names given"@)
                } else {
                    Ok((t, r, ScopeView::Planets(texts(o.planets@))))
                }
            } else {
                Err("unknown scope '"@ + o.scope@ + "'"@)
            },
        },
    }
}

/// The species a request names, or the message for an unknown name.
fn named_species(name: &str) -> (r: Result<Species, String>)
    ensures
        match species_named(name@) {
            Some(s) => r == Ok::<Species, String>(s),
            None => r matches Err(m) && m@ == unknown_name_text(name@),
        },
{
    match Species::from_name(name) {
        Some(s) => Ok(s),
        None => {
            let mut m = String::from_str("unknown species '");
            m.append(name);
            m.append("'");
            Err(m)
        },
    }
}

/// A copy of a list of strings.
pub fn copy_texts(v: &Vec<String>) -> (out: Vec<String>)
    ensures
        texts(out@) == texts(v@),
{
    let mut out: Vec<String> = Vec::new();
    let mut i: usize = 0;
    while i < v.len()
        invariant
            i <= v@.len(),
            out@.len() == i,
            forall|k: int| 0 <= k < i ==> (#[trigger] out@[k])@ == v@[k]@,
        decreases v@.len() - i,
    {
        let copy = v[i].clone();
        out.push(copy);
        i = i + 1;
    }
    assert(texts(out@) =~= texts(v@));
    out
}

/// Resolve a replacement request: look up the species, refuse replacing a
/// species with itself, and build the scope.
pub fn resolve(options: &ReplaceOptions) -> (r: Result<Resolved, String>)
    ensures
        match resolve_of(*options) {
            Ok((t, rep, scope)) => r matches Ok(res) && res.target == t && res.replacement == rep && res.scope@
                == scope && res.mine == options.mine,
            Err(m) => r matches Err(e) && e@ == m,
        },
{
    let target = match named_species(options.target.as_str()) {
        Ok(s) => s,
        Err(m) => return Err(m),
    };
    let replacement = match named_species(options.replacement.as_str()) {
        Ok(s) => s,
        Err(m) => return Err(m),
    };
    if target == replacement {
        return Err(String::from_str("target and replacement are the same species"));
    }
    let scope = if text_is(options.scope.as_str(), "shared") {
        let protect = match &options.protect {
            Some(name) => {
                if name.as_str().unicode_len() == 0 {
                    None
                } else {
                    match named_species(name.as_str()) {
                        Ok(s) => Some(s),
                        Err(m) => return Err(m),
                    }
                }
            },
            None => None,
        };
        Scope::Shared { protect }
    } else if text_is(options.scope.as_str(), "everywhere") {
        Scope::Everywhere
    } else if text_is(options.scope.as_str(), "planets") {
        if options.planets.len() == 0 {
            return Err(String::from_str("no planet names given"));
        }
        let names = copy_texts(&options.planets);
        let scope = Scope::Planets(names);
        assert(scope@ == ScopeView::Planets(texts(options.planets@)));
        scope
    } else {
        let mut m = String::from_str("unknown scope '");
        m.append(options.scope.as_str());
        m.append("'");
        return Err(m);
    };
    Ok(Resolved { target, replacement, scope, mine: options.mine })
}

} // verus!
