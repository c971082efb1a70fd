//! Coordinator roles, parsed from a comma-separated list of names.

use vstd::prelude::*;
use vstd::string::{StrSliceExecFns, StringExecFns};

verus! {

/// The Unicode lowercase mapping of a string.
pub uninterp spec fn lower_of(s: Seq<char>) -> Seq<char>;

/// Relies on str::to_lowercase: the Unicode lowercase mapping, which depends on the
/// characters alone.
#[verifier::external_body]
fn lowercase(s: &str) -> (r: String)
    ensures
        r@ == lower_of(s@),
{
    s.to_lowercase()
}

/// Whether a character has the Unicode White_Space property: tab through carriage
/// return, space, next line, no-break space, Ogham space mark, the spaces from
/// en quad to hair space, line and paragraph separators, narrow no-break space,
/// medium mathematical space and ideographic space.
pub open spec fn is_white(c: char) -> bool {
    let u = c as u32;
    (0x09 <= u <= 0x0d) || u == 0x20 || u == 0x85 || u == 0xa0 || u == 0x1680 || (0x2000 <= u
        <= 0x200a) || u == 0x2028 || u == 0x2029 || u == 0x202f || u == 0x205f || u == 0x3000
}

/// Whether `c` has the Unicode White_Space property.
pub fn is_whitespace(c: char) -> (r: bool)
    ensures
        r == is_white(c),
{
    let u = c as u32;
    (0x09 <= u && u <= 0x0d) || u == 0x20 || u == 0x85 || u == 0xa0 || u == 0x1680 || (0x2000 <= u
        && u <= 0x200a) || u == 0x2028 || u == 0x2029 || u == 0x202f || u == 0x205f || u == 0x3000
}

/// The pieces of `s` between commas, in order (at least one).
pub open spec fn split_commas(s: Seq<char>) -> Seq<Seq<char>>
    decreases s.len(),
{
    if s.len() == 0 {
        seq![Seq::<char>::empty()]
    } else {
        let p = split_commas(s.drop_last());
        if s.last() == ',' {
            p.push(Seq::empty())
        } else {
            p.update(p.len() - 1, p.last().push(s.last()))
        }
    }
}

/// `s` without its leading white space.
pub open spec fn trim_start(s: Seq<char>) -> Seq<char>
    decreases s.len(),
{
    if s.len() > 0 && is_white(s[0]) {
        trim_start(s.subrange(1, s.len() as int))
    } else {
        s
    }
}

/// `s` without its trailing white space.
pub open spec fn trim_end(s: Seq<char>) -> Seq<char>
    decreases s.len(),
{
    if s.len() > 0 && is_white(s.last()) {
        trim_end(s.drop_last())
    } else {
        s
    }
}

/// `s` without leading and trailing white space.
pub open spec fn trimmed(s: Seq<char>) -> Seq<char> {
    trim_end(trim_start(s))
}

/// A role a coordinator node can take.
#[derive(Clone, Copy, Debug, PartialEq, Eq, Structural)]
pub enum Role {
    Coordinator,
    Reflector,
    Relay,
    Rendezvous,
}

/// The role a (lowercase) name stands for.
pub open spec fn role_of(name: Seq<char>) -> Option<Role> {
    if name == "coordinator"@ {
        Some(Role::Coordinator)
    } else if name == "reflector"@ {
        Some(Role::Reflector)
    } else if name == "relay"@ {
        Some(Role::Relay)
    } else if name == "rendezvous"@ {
        Some(Role::Rendezvous)
    } else {
        None
    }
}

/// Which roles a coordinator node takes.
#[derive(Clone, Copy, Debug, PartialEq, Eq, Structural)]
pub struct CoordinatorRoles {
    pub coordinator: bool,
    pub reflector: bool,
    pub relay: bool,
    pub rendezvous: bool,
}

/// No role at all.
pub open spec fn no_roles() -> CoordinatorRoles {
    CoordinatorRoles { coordinator: false, reflector: false, relay: false, rendezvous: false }
}

impl Default for CoordinatorRoles {
    fn default() -> (r: CoordinatorRoles)
        ensures
            r == no_roles(),
    {
        CoordinatorRoles { coordinator: false, reflector: false, relay: false, rendezvous: false }
    }
}

/// `r` with `role` added.
pub open spec fn with_role(r: CoordinatorRoles, role: Role) -> CoordinatorRoles {
    match role {
        Role::Coordinator => CoordinatorRoles { coordinator: true, ..r },
        Role::Reflector => CoordinatorRoles { reflector: true, ..r },
        Role::Relay => CoordinatorRoles { relay: true, ..r },
        Role::Rendezvous => CoordinatorRoles { rendezvous: true, ..r },
    }
}

/// The roles named by `names`, empty names skipped, or the first unknown name.
pub open spec fn roles_of(names: Seq<Seq<char>>) -> Result<CoordinatorRoles, Seq<char>>
    decreases names.len(),
{
    if names.len() == 0 {
        Ok(no_roles())
    } else {
        match roles_of(names.drop_last()) {
            Err(e) => Err(e),
            Ok(r) => {
                let n = names.last();
                if n.len() == 0 {
                    Ok(r)
                } else {
                    match role_of(n) {
                        Some(role) => Ok(with_role(r, role)),
                        None => Err(n),
                    }
                }
            },
        }
    }
}

/// A role list could not be parsed.
#[derive(Clone, Debug)]
pub enum RoleError {
    UnknownRole(String),
}

impl RoleError {
    /// The error's message.
    pub fn to_string(&self) -> (r: String)
        ensures
            match self {
                RoleError::UnknownRole(name) => r@ == "Unknown role: "@ + name@,
            },
    {
        match self {
            RoleError::UnknownRole(name) => {
                let r = String::from_str("Unknown role: ").concat(name.as_str());
                proof {
                    reveal_strlit("Unknown role: ");
                }
                r
            },
        }
    }
}

/// `r` as roles or the unknown name it reports.
pub open spec fn roles_result(r: Result<CoordinatorRoles, RoleError>) -> Result<CoordinatorRoles, Seq<char>> {
    match r {
        Ok(x) => Ok(x),
        Err(RoleError::UnknownRole(n)) => Err(n@),
    }
}

/// The views of a list of strings.
pub open spec fn strings_view(v: Seq<String>) -> Seq<Seq<char>> {
    v.map_values(|s: String| s@)
}

/// Once a prefix of the names fails, every longer prefix fails the same way.
proof fn lemma_error_persists(v: Seq<Seq<char>>, k: int, e: Seq<char>)
    requires
        0 <= k <= v.len(),
        roles_of(v.take(k)) == Err::<CoordinatorRoles, Seq<char>>(e),
    ensures
        roles_of(v.take(v.len() as int)) == Err::<CoordinatorRoles, Seq<char>>(e),
    decreases v.len() - k,
{
    if k < v.len() {
        assert(v.take(k + 1).drop_last() =~= v.take(k));
        lemma_error_persists(v, k + 1, e);
    }
}

fn same_chars(a: &str, b: &str) -> (r: bool)
    ensures
        r == (a@ == b@),
{
    let n = a.unicode_len();
    if n != b.unicode_len() {
        return false;
    }
    let mut i: usize = 0;
    while i < n
        invariant
            n == a@.len(),
            n == b@.len(),
            0 <= i <= n,
            forall|k: int| 0 <= k < i ==> a@[k] == b@[k],
        decreases n - i,
    {
        if a.get_char(i) != b.get_char(i) {
            return false;
        }
        i = i + 1;
    }
    assert(a@ =~= b@);
    true
}

/// The role a lowercase name stands for.
pub fn role_from_name(name: &str) -> (r: Option<Role>)
    ensures
        r == role_of(name@),
{
    if same_chars(name, "coordinator") {
        Some(Role::Coordinator)
    } else if same_chars(name, "reflector") {
        Some(Role::Reflector)
    } else if same_chars(name, "relay") {
        Some(Role::Relay)
    } else if same_chars(name, "rendezvous") {
        Some(Role::Rendezvous)
    } else {
        None
    }
}

/// The roles named by `names` (already trimmed and lowercased), empty names skipped;
/// fails on the first unknown name.
pub fn roles_from_names(names: &Vec<String>) -> (r: Result<CoordinatorRoles, RoleError>)
    ensures
        roles_result(r) == roles_of(strings_view(names@)),
{
    let mut roles = CoordinatorRoles { coordinator: false, reflector: false, relay: false, rendezvous: false };
    let mut i: usize = 0;
    while i < names.len()
        invariant
            0 <= i <= names@.len(),
            roles_of(strings_view(names@).take(i as int)) == Ok::<CoordinatorRoles, Seq<char>>(roles),
        decreases names@.len() - i,
    {
        let name = names[i].as_str();
        assert(strings_view(names@).take(i + 1).drop_last() =~= strings_view(names@).take(i as int));
        assert(strings_view(names@).take(i + 1).last() == names@[i as int]@);
        if name.unicode_len() > 0 {
            match role_from_name(name) {
                Some(Role::Coordinator) => roles.coordinator = true,
                Some(Role::Reflector) => roles.reflector = true,
                Some(Role::Relay) => roles.relay = true,
                Some(Role::Rendezvous) => roles.rendezvous = true,
                None => {
                    let e = RoleError::UnknownRole(String::from_str(name));
                    proof {
                        let v = strings_view(names@);
                        assert(roles_of(v.take(i + 1)) == Err::<CoordinatorRoles, Seq<char>>(name@));
                        lemma_error_persists(v, (i + 1) as int, name@);
                        assert(v.take(v.len() as int) =~= v);
                    }
                    return Err(e);
                },
            }
        }
        i = i + 1;
    }
    assert(strings_view(names@).take(names@.len() as int) =~= strings_view(names@));
    Ok(roles)
}

/// The pieces of `s` between commas.
pub fn split_on_commas(s: &str) -> (r: Vec<&str>)
    ensures
        r@.map_values(|p: &str| p@) == split_commas(s@),
{
    let n = s.unicode_len();
    let mut r: Vec<&str> = Vec::new();
    let mut start: usize = 0;
    let mut i: usize = 0;
    assert(s@.take(0) =~= Seq::<char>::empty());
    assert(r@.map_values(|p: &str| p@) =~= Seq::<Seq<char>>::empty());
    assert(s@.subrange(0, 0) =~= Seq::<char>::empty());
    while i < n
        invariant
            n == s@.len(),
            0 <= start <= i <= n,
            split_commas(s@.take(i as int)) == r@.map_values(|p: &str| p@).push(s@.subrange(start as int, i as int)),
        decreases n - i,
    {
        let c = s.get_char(i);
        assert(s@.take(i + 1).drop_last() =~= s@.take(i as int));
        assert(s@.take(i + 1).last() == c);
        if c == ',' {
            let piece = s.substring_char(start, i);
            let ghost before = r@;
            r.push(piece);
            assert(r@.map_values(|p: &str| p@) =~= before.map_values(|p: &str| p@).push(piece@));
            start = i + 1;
            assert(s@.subrange(start as int, (i + 1) as int) =~= Seq::<char>::empty());
        } else {
            assert(s@.subrange(start as int, (i + 1) as int) =~= s@.subrange(start as int, i as int).push(c));
            assert(split_commas(s@.take(i + 1)) =~= r@.map_values(|p: &str| p@).push(s@.subrange(start as int, (i + 1) as int)));
        }
        i = i + 1;
    }
    let piece = s.substring_char(start, n);
    let ghost before = r@;
    r.push(piece);
    assert(r@.map_values(|p: &str| p@) =~= before.map_values(|p: &str| p@).push(piece@));
    assert(s@.take(n as int) =~= s@);
    r
}

/// `s` without leading and trailing white space.
pub fn trim(s: &str) -> (r: &str)
    ensures
        r@ == trimmed(s@),
{
    let n = s.unicode_len();
    let mut a: usize = 0;
    assert(s@.subrange(0, n as int) =~= s@);
    while a < n && is_whitespace(s.get_char(a))
        invariant
            n == s@.len(),
            0 <= a <= n,
            trim_start(s@) == trim_start(s@.subrange(a as int, n as int)),
        decreases n - a,
    {
        assert(s@.subrange(a as int, n as int).subrange(1, (n - a) as int) =~= s@.subrange(a + 1, n as int));
        a = a + 1;
    }
    let ghost t = s@.subrange(a as int, n as int);
    assert(trim_start(s@) == t);
    let mut b: usize = n - a;
    assert(t.take(t.len() as int) =~= t);
    while b > 0 && is_whitespace(s.get_char(a + b - 1))
        invariant
            n == s@.len(),
            0 <= a <= n,
            t == s@.subrange(a as int, n as int),
            0 <= b <= n - a,
            trim_end(t) == trim_end(t.take(b as int)),
        decreases b,
    {
        assert(t.take(b as int).drop_last() =~= t.take(b - 1));
        b = b - 1;
    }
    assert(trim_end(t) == t.take(b as int));
    let r = s.substring_char(a, a + b);
    assert(r@ =~= t.take(b as int));
    r
}

/// Parses a comma-separated list of role names; names are trimmed and matched
/// case-insensitively, empty names are skipped, and an unknown name fails.
pub fn parse_roles(roles_str: &str) -> (r: Result<CoordinatorRoles, RoleError>)
    ensures
        roles_result(r) == roles_of(
            split_commas(roles_str@).map_values(|p: Seq<char>| lower_of(trimmed(p))),
        ),
{
    let pieces = split_on_commas(roles_str);
    let mut names: Vec<String> = Vec::new();
    let mut i: usize = 0;
    while i < pieces.len()
        invariant
            0 <= i <= pieces@.len(),
            pieces@.map_values(|p: &str| p@) == split_commas(roles_str@),
            strings_view(names@) == split_commas(roles_str@).take(i as int).map_values(
                |p: Seq<char>| lower_of(trimmed(p)),
            ),
        decreases pieces@.len() - i,
    {
        let name = lowercase(trim(pieces[i]));
        let ghost before = names@;
        names.push(name);
        proof {
            let sc = split_commas(roles_str@);
            assert(sc[i as int] == pieces@[i as int]@);
            assert(sc.take(i + 1) =~= sc.take(i as int).push(sc[i as int]));
            assert(strings_view(names@) =~= strings_view(before).push(name@));
            assert(sc.take(i + 1).map_values(|p: Seq<char>| lower_of(trimmed(p))) =~= sc.take(
                i as int,
            ).map_values(|p: Seq<char>| lower_of(trimmed(p))).push(lower_of(trimmed(sc[i as int]))));
        }
        i = i + 1;
    }
    proof {
        let sc = split_commas(roles_str@);
        assert(pieces@.len() == sc.len());
        assert(sc.take(sc.len() as int) =~= sc);
    }
    roles_from_names(&names)
}

} // verus!
