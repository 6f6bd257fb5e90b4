//! Sampling modes and the roles of volumes (what they catch, kill or record).
use vstd::prelude::*;
use vstd::string::*;
use crate::cxx::{Action, Roles};
use crate::utils::error::{explain_text, variant_explain, views};
use crate::utils::text::{spec_split_once, split_once, str_eq, to_owned};

verus! {

/// Sampling mode for energy deposits.
#[derive(Clone, Copy, PartialEq, Eq, Structural, Debug)]
pub enum SamplerMode {
    Brief,
    Detailed,
}

impl SamplerMode {
    /// The lower-case name of the mode.
    pub open spec fn name(self) -> Seq<char> {
        match self {
            SamplerMode::Brief => "brief"@,
            SamplerMode::Detailed => "detailed"@,
        }
    }

    /// The names of all modes, in declaration order.
    pub open spec fn names() -> Seq<Seq<char>> {
        seq!["brief"@, "detailed"@]
    }

    pub fn options() -> (r: Vec<&'static str>)
        ensures
            views(r@) == Self::names(),
    {
        let r = vec!["brief", "detailed"];
        assert(views(r@) =~= Self::names());
        r
    }

    pub fn to_str(&self) -> (r: &'static str)
        ensures
            r@ == self.name(),
    {
        match self {
            SamplerMode::Brief => "brief",
            SamplerMode::Detailed => "detailed",
        }
    }

    /// The mode named `s`, or else the names of all modes.
    pub fn from_str(s: &str) -> (r: Result<Self, Vec<&'static str>>)
        ensures
            match r {
                Ok(mode) => mode.name() == s@,
                Err(options) => views(options@) == Self::names()
                    && forall|mode: SamplerMode| mode.name() != s@,
            },
    {
        if str_eq(s, "brief") {
            Ok(SamplerMode::Brief)
        } else if str_eq(s, "detailed") {
            Ok(SamplerMode::Detailed)
        } else {
            Err(Self::options())
        }
    }
}

/// Verb of a role.
#[derive(Clone, Copy, PartialEq, Eq, Structural, Debug)]
pub enum RoleVerb {
    Catch,
    Kill,
    Record,
}

impl RoleVerb {
    pub open spec fn name(self) -> Seq<char> {
        match self {
            RoleVerb::Catch => "catch"@,
            RoleVerb::Kill => "kill"@,
            RoleVerb::Record => "record"@,
        }
    }

    pub open spec fn names() -> Seq<Seq<char>> {
        seq!["catch"@, "kill"@, "record"@]
    }

    /// The verb named `s`, if any.
    pub open spec fn named(s: Seq<char>) -> Option<RoleVerb> {
        if s == "catch"@ {
            Some(RoleVerb::Catch)
        } else if s == "kill"@ {
            Some(RoleVerb::Kill)
        } else if s == "record"@ {
            Some(RoleVerb::Record)
        } else {
            None
        }
    }

    pub fn options() -> (r: Vec<&'static str>)
        ensures
            views(r@) == Self::names(),
    {
        let r = vec!["catch", "kill", "record"];
        assert(views(r@) =~= Self::names());
        r
    }

    pub fn to_str(&self) -> (r: &'static str)
        ensures
            r@ == self.name(),
    {
        match self {
            RoleVerb::Catch => "catch",
            RoleVerb::Kill => "kill",
            RoleVerb::Record => "record",
        }
    }

    pub fn from_str(s: &str) -> (r: Result<Self, Vec<&'static str>>)
        ensures
            match r {
                Ok(verb) => Self::named(s@) == Some(verb),
                Err(options) => views(options@) == Self::names() && Self::named(s@) is None,
            },
    {
        if str_eq(s, "catch") {
            Ok(RoleVerb::Catch)
        } else if str_eq(s, "kill") {
            Ok(RoleVerb::Kill)
        } else if str_eq(s, "record") {
            Ok(RoleVerb::Record)
        } else {
            Err(Self::options())
        }
    }

    /// The action carried out by this verb.
    pub open spec fn action(self) -> Action {
        match self {
            RoleVerb::Catch => Action::Catch,
            RoleVerb::Kill => Action::Kill,
            RoleVerb::Record => Action::Record,
        }
    }

    pub fn into_action(self) -> (r: Action)
        ensures
            r == self.action(),
    {
        match self {
            RoleVerb::Catch => Action::Catch,
            RoleVerb::Kill => Action::Kill,
            RoleVerb::Record => Action::Record,
        }
    }
}

/// Subject of a role.
#[derive(Clone, Copy, PartialEq, Eq, Structural, Debug)]
pub enum RoleSubject {
    All,
    Deposits,
    Ingoing,
    Outgoing,
    Particles,
}

impl RoleSubject {
    pub open spec fn name(self) -> Seq<char> {
        match self {
            RoleSubject::All => "all"@,
            RoleSubject::Deposits => "deposits"@,
            RoleSubject::Ingoing => "ingoing"@,
            RoleSubject::Outgoing => "outgoing"@,
            RoleSubject::Particles => "particles"@,
        }
    }

    pub open spec fn names() -> Seq<Seq<char>> {
        seq!["all"@, "deposits"@, "ingoing"@, "outgoing"@, "particles"@]
    }

    pub open spec fn named(s: Seq<char>) -> Option<RoleSubject> {
        if s == "all"@ {
            Some(RoleSubject::All)
        } else if s == "deposits"@ {
            Some(RoleSubject::Deposits)
        } else if s == "ingoing"@ {
            Some(RoleSubject::Ingoing)
        } else if s == "outgoing"@ {
            Some(RoleSubject::Outgoing)
        } else if s == "particles"@ {
            Some(RoleSubject::Particles)
        } else {
            None
        }
    }

    pub fn options() -> (r: Vec<&'static str>)
        ensures
            views(r@) == Self::names(),
    {
        let r = vec!["all", "deposits", "ingoing", "outgoing", "particles"];
        assert(views(r@) =~= Self::names());
        r
    }

    pub fn to_str(&self) -> (r: &'static str)
        ensures
            r@ == self.name(),
    {
        match self {
            RoleSubject::All => "all",
            RoleSubject::Deposits => "deposits",
            RoleSubject::Ingoing => "ingoing",
            RoleSubject::Outgoing => "outgoing",
            RoleSubject::Particles => "particles",
        }
    }

    pub fn from_str(s: &str) -> (r: Result<Self, Vec<&'static str>>)
        ensures
            match r {
                Ok(subject) => Self::named(s@) == Some(subject),
                Err(options) => views(options@) == Self::names() && Self::named(s@) is None,
            },
    {
        if str_eq(s, "all") {
            Ok(RoleSubject::All)
        } else if str_eq(s, "deposits") {
            Ok(RoleSubject::Deposits)
        } else if str_eq(s, "ingoing") {
            Ok(RoleSubject::Ingoing)
        } else if str_eq(s, "outgoing") {
            Ok(RoleSubject::Outgoing)
        } else if str_eq(s, "particles") {
            Ok(RoleSubject::Particles)
        } else {
            Err(Self::options())
        }
    }
}

/// A role: a verb applied to a subject, e.g. `record_deposits`.
#[derive(Clone, Copy, PartialEq, Eq, Structural, Debug)]
pub struct Role {
    pub verb: RoleVerb,
    pub subject: RoleSubject,
}

/// The role named `s`, or else the message explaining why there is none.
pub open spec fn parse_role(s: Seq<char>) -> Result<Role, Seq<char>> {
    match spec_split_once(s, '_') {
        None => Err("syntax error: missing verb or subject"@),
        Some((v, w)) => match RoleVerb::named(v) {
            None => Err("unknown verb: "@ + explain_text(v, RoleVerb::names())),
            Some(verb) => match RoleSubject::named(w) {
                None => Err("unknown subject: "@ + explain_text(w, RoleSubject::names())),
                Some(subject) => Ok(Role { verb, subject }),
            },
        },
    }
}

impl Role {
    pub fn try_from(value: &str) -> (r: Result<Role, String>)
        ensures
            match (r, parse_role(value@)) {
                (Ok(role), Ok(expected)) => role == expected,
                (Err(message), Err(expected)) => message@ == expected,
                _ => false,
            },
    {
        let (verb, subject) = match split_once(value, '_') {
            None => {
                return Err(to_owned("syntax error: missing verb or subject"));
            },
            Some(parts) => parts,
        };
        let verb = match RoleVerb::from_str(verb) {
            Ok(verb) => verb,
            Err(options) => {
                let mut message = to_owned("unknown verb: ");
                let explain = variant_explain(verb, options.as_slice());
                message.append(explain.as_str());
                return Err(message);
            },
        };
        let subject = match RoleSubject::from_str(subject) {
            Ok(subject) => subject,
            Err(options) => {
                let mut message = to_owned("unknown subject: ");
                let explain = variant_explain(subject, options.as_slice());
                message.append(explain.as_str());
                return Err(message);
            },
        };
        Ok(Role { verb, subject })
    }
}

} // verus!

verus! {

/// The name of an action, for the actions that have one.
pub open spec fn action_name(action: Action) -> Seq<char> {
    match action {
        Action::Catch => "catch"@,
        Action::Kill => "kill"@,
        Action::Record => "record"@,
        Action::NoAction => Seq::empty(),
    }
}

pub fn action_to_str(action: Action) -> (r: &'static str)
    requires
        action != Action::NoAction,
    ensures
        r@ == action_name(action),
{
    match action {
        Action::Catch => "catch",
        Action::Kill => "kill",
        Action::Record => "record",
        Action::NoAction => "",
    }
}

/// Roles without any action.
pub open spec fn no_roles() -> Roles {
    Roles { ingoing: Action::NoAction, outgoing: Action::NoAction, deposits: Action::NoAction }
}

/// The roles `roles` once `role` has been added to them, or the reason why
/// `role` cannot be.
pub open spec fn add_role(roles: Roles, role: Role) -> Result<Roles, Seq<char>> {
    let action = role.verb.action();
    match role.subject {
        RoleSubject::All => Ok(
            Roles {
                ingoing: action,
                outgoing: action,
                deposits: if action == Action::Record { action } else { roles.deposits },
            },
        ),
        RoleSubject::Deposits => if action != Action::Record {
            Err("cannot '"@ + action_name(action) + "' deposits"@)
        } else {
            Ok(Roles { deposits: action, ..roles })
        },
        RoleSubject::Ingoing => Ok(Roles { ingoing: action, ..roles }),
        RoleSubject::Outgoing => Ok(Roles { outgoing: action, ..roles }),
        RoleSubject::Particles => Ok(Roles { ingoing: action, outgoing: action, ..roles }),
    }
}

/// The roles named by `names`, added one after the other to no roles, or the
/// message of the first failure.
#[verifier::opaque]
pub open spec fn parse_roles(names: Seq<Seq<char>>) -> Result<Roles, Seq<char>>
    decreases names.len(),
{
    if names.len() == 0 {
        Ok(no_roles())
    } else {
        match parse_roles(names.drop_last()) {
            Err(message) => Err(message),
            Ok(roles) => match parse_role(names.last()) {
                Err(message) => Err(message),
                Ok(role) => add_role(roles, role),
            },
        }
    }
}

/// The names of the actions of `roles`: deposits, then ingoing, then outgoing.
pub open spec fn role_names(roles: Roles) -> Seq<Seq<char>> {
    let d = if roles.deposits != Action::NoAction {
        seq![action_name(roles.deposits) + "_deposits"@]
    } else {
        seq![]
    };
    let i = if roles.ingoing != Action::NoAction {
        seq![action_name(roles.ingoing) + "_ingoing"@]
    } else {
        seq![]
    };
    let o = if roles.outgoing != Action::NoAction {
        seq![action_name(roles.outgoing) + "_outgoing"@]
    } else {
        seq![]
    };
    d + i + o
}

/// The views of a sequence of `String`s.
pub open spec fn string_views(strings: Seq<String>) -> Seq<Seq<char>> {
    strings.map_values(|s: String| s@)
}

impl Roles {
    pub fn default() -> (r: Roles)
        ensures
            r == no_roles(),
    {
        Roles { ingoing: Action::NoAction, outgoing: Action::NoAction, deposits: Action::NoAction }
    }

    /// Whether any action is set.
    pub fn any(&self) -> (r: bool)
        ensures
            r == (*self != no_roles()),
    {
        self.ingoing != Action::NoAction || self.outgoing != Action::NoAction || self.deposits
            != Action::NoAction
    }

    /// The roles named by `value`.
    pub fn try_from(value: &[String]) -> (r: Result<Roles, String>)
        ensures
            match (r, parse_roles(string_views(value@))) {
                (Ok(roles), Ok(expected)) => roles == expected,
                (Err(message), Err(expected)) => message@ == expected,
                _ => false,
            },
    {
        let ghost names = string_views(value@);
        let mut roles = Roles::default();
        assert(parse_roles(names.subrange(0, 0)) == Ok::<Roles, Seq<char>>(roles)) by {
            reveal(parse_roles);
        }
        let mut i: usize = 0;
        while i < value.len()
            invariant
                names == string_views(value@),
                0 <= i <= value.len(),
                parse_roles(names.subrange(0, i as int)) == Ok::<Roles, Seq<char>>(roles),
            decreases value.len() - i,
        {
            let ghost prefix = names.subrange(0, i + 1);
            assert(prefix.drop_last() =~= names.subrange(0, i as int));
            proof {
                lemma_parse_roles_push(names.subrange(0, i as int), names[i as int]);
                assert(names.subrange(0, i as int).push(names[i as int]) =~= prefix);
            }
            assert(prefix.last() == value@[i as int]@);
            let role = match Role::try_from(value[i].as_str()) {
                Ok(role) => role,
                Err(message) => {
                    proof {
                        lemma_parse_roles_fails(names, i as int);
                    }
                    return Err(message);
                },
            };
            let action = role.verb.into_action();
            match role.subject {
                RoleSubject::All => {
                    roles.ingoing = action;
                    roles.outgoing = action;
                    if action == Action::Record {
                        roles.deposits = action;
                    }
                },
                RoleSubject::Deposits => {
                    if action != Action::Record {
                        let mut message = to_owned("cannot '");
                        message.append(action_to_str(action));
                        message.append("' deposits");
                        proof {
                            lemma_parse_roles_fails(names, i as int);
                        }
                        return Err(message);
                    }
                    roles.deposits = action;
                },
                RoleSubject::Ingoing => {
                    roles.ingoing = action;
                },
                RoleSubject::Outgoing => {
                    roles.outgoing = action;
                },
                RoleSubject::Particles => {
                    roles.ingoing = action;
                    roles.outgoing = action;
                },
            }
            i = i + 1;
        }
        assert(names.subrange(0, value.len() as int) =~= names);
        Ok(roles)
    }

    /// The names of the actions set, e.g. `record_deposits`.
    pub fn names(&self) -> (r: Vec<String>)
        ensures
            string_views(r@) == role_names(*self),
    {
        let mut strings: Vec<String> = Vec::new();
        if self.deposits != Action::NoAction {
            let mut s = to_owned(action_to_str(self.deposits));
            s.append("_deposits");
            strings.push(s);
        }
        if self.ingoing != Action::NoAction {
            let mut s = to_owned(action_to_str(self.ingoing));
            s.append("_ingoing");
            strings.push(s);
        }
        if self.outgoing != Action::NoAction {
            let mut s = to_owned(action_to_str(self.outgoing));
            s.append("_outgoing");
            strings.push(s);
        }
        assert(string_views(strings@) =~= role_names(*self));
        strings
    }
}

/// A failure on the `i`-th name is the failure of the whole list.
proof fn lemma_parse_roles_fails(names: Seq<Seq<char>>, i: int)
    requires
        0 <= i < names.len(),
        parse_roles(names.subrange(0, i + 1)) is Err,
    ensures
        parse_roles(names) == parse_roles(names.subrange(0, i + 1)),
    decreases names.len() - i,
{
    reveal(parse_roles);
    if i + 1 < names.len() {
        assert(names.drop_last().subrange(0, i + 1) =~= names.subrange(0, i + 1));
        lemma_parse_roles_fails(names.drop_last(), i);
    } else {
        assert(names.subrange(0, i + 1) =~= names);
    }
}

} // verus!

verus! {

proof fn lemma_parse_role_name(action: Action, subject: RoleSubject)
    requires
        action != Action::NoAction,
    ensures
        parse_role(action_name(action) + "_"@ + subject.name()) == Ok::<Role, Seq<char>>(
            Role {
                verb: match action {
                    Action::Catch => RoleVerb::Catch,
                    Action::Kill => RoleVerb::Kill,
                    _ => RoleVerb::Record,
                },
                subject,
            },
        ),
{
    reveal_strlit("catch");
    reveal_strlit("kill");
    reveal_strlit("record");
    reveal_strlit("_");
    reveal_strlit("all");
    reveal_strlit("deposits");
    reveal_strlit("ingoing");
    reveal_strlit("outgoing");
    reveal_strlit("particles");
    let p = action_name(action);
    assert(!p.contains('_')) by {
        if p.contains('_') {
            let k = choose|k: int| 0 <= k < p.len() && p[k] == '_';
        }
    }
    assert("_"@ =~= seq!['_']);
    crate::utils::text::lemma_split_once_join(p, '_', subject.name());
    assert("all"@.len() == 3 && "deposits"@.len() == 8 && "ingoing"@.len() == 7);
    assert("outgoing"@.len() == 8 && "particles"@.len() == 9);
    assert("deposits"@[0] != "outgoing"@[0]);
    assert(RoleSubject::named(subject.name()) == Some(subject));
    assert("catch"@.len() == 5 && "kill"@.len() == 4 && "record"@.len() == 6);
    assert(RoleVerb::named(p) is Some);
}

} // verus!

verus! {

proof fn lemma_parse_roles_push(names: Seq<Seq<char>>, name: Seq<char>)
    ensures
        parse_roles(names.push(name)) == match parse_roles(names) {
            Err(message) => Err(message),
            Ok(roles) => match parse_role(name) {
                Err(message) => Err(message),
                Ok(role) => add_role(roles, role),
            },
        },
{
    reveal(parse_roles);
    assert(names.push(name).drop_last() =~= names);
}

/// Adding the named role of `action` on `subject` to parsed roles.
proof fn lemma_parse_roles_step(
    names: Seq<Seq<char>>,
    current: Roles,
    action: Action,
    subject: RoleSubject,
)
    requires
        parse_roles(names) == Ok::<Roles, Seq<char>>(current),
        action != Action::NoAction,
        subject == RoleSubject::Deposits || subject == RoleSubject::Ingoing || subject
            == RoleSubject::Outgoing,
        subject == RoleSubject::Deposits ==> action == Action::Record,
    ensures
        parse_roles(names.push(action_name(action) + "_"@ + subject.name())) == Ok::<
            Roles,
            Seq<char>,
        >(
            match subject {
                RoleSubject::Deposits => Roles { deposits: action, ..current },
                RoleSubject::Ingoing => Roles { ingoing: action, ..current },
                _ => Roles { outgoing: action, ..current },
            },
        ),
{
    lemma_parse_role_name(action, subject);
    lemma_parse_roles_push(names, action_name(action) + "_"@ + subject.name());
}

proof fn lemma_role_suffixes()
    ensures
        "_deposits"@ == "_"@ + "deposits"@,
        "_ingoing"@ == "_"@ + "ingoing"@,
        "_outgoing"@ == "_"@ + "outgoing"@,
{
    reveal_strlit("_deposits");
    reveal_strlit("_ingoing");
    reveal_strlit("_outgoing");
    reveal_strlit("_");
    reveal_strlit("deposits");
    reveal_strlit("ingoing");
    reveal_strlit("outgoing");
    assert("_deposits"@ =~= "_"@ + "deposits"@);
    assert("_ingoing"@ =~= "_"@ + "ingoing"@);
    assert("_outgoing"@ =~= "_"@ + "outgoing"@);
}

/// Law: the names of roles whose deposits are recorded or left alone parse
/// back into the same roles.
pub proof fn law_roles_names_roundtrip(roles: Roles)
    requires
        roles.deposits == Action::NoAction || roles.deposits == Action::Record,
    ensures
        parse_roles(role_names(roles)) == Ok::<Roles, Seq<char>>(roles),
{
    lemma_role_suffixes();
    let n0 = Seq::<Seq<char>>::empty();
    let r0 = no_roles();
    assert(parse_roles(n0) == Ok::<Roles, Seq<char>>(r0)) by {
        reveal(parse_roles);
    }
    let (n1, r1) = if roles.deposits != Action::NoAction {
        lemma_parse_roles_step(n0, r0, roles.deposits, RoleSubject::Deposits);
        (n0.push(action_name(roles.deposits) + "_"@ + "deposits"@), Roles { deposits: roles.deposits, ..r0 })
    } else {
        (n0, r0)
    };
    let (n2, r2) = if roles.ingoing != Action::NoAction {
        lemma_parse_roles_step(n1, r1, roles.ingoing, RoleSubject::Ingoing);
        (n1.push(action_name(roles.ingoing) + "_"@ + "ingoing"@), Roles { ingoing: roles.ingoing, ..r1 })
    } else {
        (n1, r1)
    };
    let (n3, r3) = if roles.outgoing != Action::NoAction {
        lemma_parse_roles_step(n2, r2, roles.outgoing, RoleSubject::Outgoing);
        (n2.push(action_name(roles.outgoing) + "_"@ + "outgoing"@), Roles { outgoing: roles.outgoing, ..r2 })
    } else {
        (n2, r2)
    };
    assert(r3 == roles);
    assert(n3 =~= role_names(roles)) by {
        assert(action_name(roles.deposits) + "_"@ + "deposits"@ == action_name(roles.deposits) + "_deposits"@) by {
            assert(action_name(roles.deposits) + "_"@ + "deposits"@ =~= action_name(roles.deposits) + ("_"@ + "deposits"@));
        }
        assert(action_name(roles.ingoing) + "_"@ + "ingoing"@ =~= action_name(roles.ingoing) + ("_"@ + "ingoing"@));
        assert(action_name(roles.outgoing) + "_"@ + "outgoing"@ =~= action_name(roles.outgoing) + ("_"@ + "outgoing"@));
    }
}

/// Law: parsed roles record their deposits or leave them alone, so that their
/// names parse back into them (see `law_roles_names_roundtrip`).
pub proof fn law_parsed_roles_deposits(names: Seq<Seq<char>>)
    ensures
        parse_roles(names) matches Ok(roles) ==> (roles.deposits == Action::NoAction
            || roles.deposits == Action::Record),
    decreases names.len(),
{
    reveal(parse_roles);
    if names.len() > 0 {
        law_parsed_roles_deposits(names.drop_last());
    }
}

/// Law: a single role name, a verb and a subject joined by `_`, sets the
/// verb's action on what the subject names and leaves every other action
/// unset: `all` sets ingoing and outgoing particles, and deposits too for
/// `record`; `particles` sets ingoing and outgoing particles; `ingoing` and
/// `outgoing` set one of them; `deposits` takes `record` alone and refuses
/// any other verb.
pub proof fn law_single_role(verb: RoleVerb, subject: RoleSubject)
    ensures
        parse_roles(seq![verb.name() + "_"@ + subject.name()]) == ({
            let a = verb.action();
            let none = Action::NoAction;
            match subject {
                RoleSubject::All => Ok::<Roles, Seq<char>>(
                    Roles { ingoing: a, outgoing: a, deposits: if verb == RoleVerb::Record { a } else { none } },
                ),
                RoleSubject::Deposits => if verb == RoleVerb::Record {
                    Ok(Roles { ingoing: none, outgoing: none, deposits: a })
                } else {
                    Err("cannot '"@ + verb.name() + "' deposits"@)
                },
                RoleSubject::Ingoing => Ok(Roles { ingoing: a, outgoing: none, deposits: none }),
                RoleSubject::Outgoing => Ok(Roles { ingoing: none, outgoing: a, deposits: none }),
                RoleSubject::Particles => Ok(Roles { ingoing: a, outgoing: a, deposits: none }),
            }
        }),
{
    let a = verb.action();
    assert(action_name(a) == verb.name());
    lemma_parse_role_name(a, subject);
    let name = verb.name() + "_"@ + subject.name();
    let n0 = Seq::<Seq<char>>::empty();
    assert(parse_roles(n0) == Ok::<Roles, Seq<char>>(no_roles())) by {
        reveal(parse_roles);
    }
    lemma_parse_roles_push(n0, name);
    assert(n0.push(name) =~= seq![name]);
}

/// Law: roles have some action exactly when they have some name.
pub proof fn law_roles_any_names(roles: Roles)
    ensures
        (roles != no_roles()) == (role_names(roles).len() > 0),
{
}

} // verus!
