use vstd::prelude::*;
use vstd::string::*;
use crate::patterns::{set_matches, PatternSet};

verus! {

/// Errors of alias creation, deletion and resolution.
#[derive(PartialEq, Eq, Structural, Clone, Copy, Debug)]
pub enum AliasError {
    /// Malformed alias syntax, or a foreign alias given to a local-only operation.
    InvalidInput,
    /// The alias already maps to a room.
    Conflict,
    /// The alias is unknown here and no bridge claims it, or the remote server does not know it.
    NotFound,
    /// The alias is on the denylist, or outside the requester's namespace.
    Forbidden,
    /// A federation or bridge request failed.
    UpstreamFailure,
    /// A bridge claimed the alias, but no local mapping appeared.
    ConfigInconsistency,
}

/// The text of the alias `#localpart:server`.
pub open spec fn alias_text(localpart: Seq<char>, server: Seq<char>) -> Seq<char> {
    seq!['#'] + localpart + seq![':'] + server
}

/// `s` is `#`, a localpart without `:`, then `:` at `colon`, then a nonempty server name.
pub open spec fn splits_at(s: Seq<char>, colon: int) -> bool {
    &&& s.len() > 0
    &&& s[0] == '#'
    &&& 1 <= colon < s.len() - 1
    &&& s[colon] == ':'
    &&& forall|j: int| 1 <= j < colon ==> s[j] != ':'
}

/// Whether `s` is a well-formed room alias.
pub open spec fn is_alias_syntax(s: Seq<char>) -> bool {
    exists|colon: int| splits_at(s, colon)
}

/// A room alias `#localpart:server`: a human-readable, server-scoped room name.
pub struct RoomAlias {
    text: String,
    localpart: String,
    server: String,
}

impl RoomAlias {
    /// The full alias text.
    pub closed spec fn text(&self) -> Seq<char> {
        self.text@
    }

    /// The part between `#` and the first `:`.
    pub closed spec fn localpart(&self) -> Seq<char> {
        self.localpart@
    }

    /// The server that owns the alias: everything after the first `:`.
    pub closed spec fn server(&self) -> Seq<char> {
        self.server@
    }

    pub closed spec fn wf(&self) -> bool {
        &&& self.text@ == alias_text(self.localpart@, self.server@)
        &&& !self.localpart@.contains(':')
        &&& self.server@.len() > 0
    }

    /// Parses `#localpart:server`; the localpart ends at the first `:`.
    pub fn parse(s: &str) -> (r: Result<RoomAlias, AliasError>)
        ensures
            r is Ok <==> is_alias_syntax(s@),
            r matches Err(e) ==> e == AliasError::InvalidInput,
            r matches Ok(a) ==> a.wf() && a.text() == s@ && is_alias_syntax(s@) && splits_at(
                s@,
                a.localpart().len() + 1 as int,
            ) && a.server() == s@.subrange(a.localpart().len() + 2 as int, s@.len() as int),
    {
        let n = s.unicode_len();
        if n == 0 || s.get_char(0) != '#' {
            return Err(AliasError::InvalidInput);
        }
        let mut i: usize = 1;
        while i < n
            invariant
                1 <= i <= n,
                n == s@.len(),
                s@[0] == '#',
                forall|j: int| 1 <= j < i ==> s@[j] != ':',
            ensures
                1 <= i <= n,
                i < n ==> s@[i as int] == ':',
                forall|j: int| 1 <= j < i ==> s@[j] != ':',
            decreases n - i,
        {
            if s.get_char(i) == ':' {
                break;
            }
            i = i + 1;
        }
        if i >= n - 1 {
            proof {
                assert forall|c: int| !splits_at(s@, c) by {
                    if splits_at(s@, c) {
                        if c < i {
                        } else if i < n {
                            assert(c < n - 1);
                        }
                    }
                }
            }
            return Err(AliasError::InvalidInput);
        }
        let localpart = s.substring_char(1, i).to_owned();
        let server = s.substring_char(i + 1, n).to_owned();
        let text = s.to_owned();
        proof {
            assert(splits_at(s@, i as int));
            assert(s@ =~= alias_text(localpart@, server@));
            assert(!localpart@.contains(':')) by {
                if localpart@.contains(':') {
                    let k = choose|k: int| 0 <= k < localpart@.len() && localpart@[k] == ':';
                    assert(s@[k + 1] == ':');
                }
            }
        }
        Ok(RoomAlias { text, localpart, server })
    }

    /// The full alias text.
    pub fn as_str(&self) -> (r: &String)
        ensures
            r@ == self.text(),
    {
        &self.text
    }

    /// The localpart, without the `#` sigil.
    pub fn alias(&self) -> (r: &String)
        ensures
            r@ == self.localpart(),
    {
        &self.localpart
    }

    /// The server that owns the alias.
    pub fn server_name(&self) -> (r: &String)
        ensures
            r@ == self.server(),
    {
        &self.server
    }
}

/// The alias namespaces that an application service registered.
pub struct NamespaceRegex {
    /// Aliases that only this service may manage.
    pub exclusive: PatternSet,
    /// Aliases that this service may manage alongside others.
    pub non_exclusive: PatternSet,
}

impl NamespaceRegex {
    pub open spec fn matches(&self, text: Seq<char>) -> bool {
        set_matches(self.exclusive.patterns(), text) || set_matches(
            self.non_exclusive.patterns(),
            text,
        )
    }

    pub open spec fn matches_exclusively(&self, text: Seq<char>) -> bool {
        set_matches(self.exclusive.patterns(), text)
    }

    /// Whether `text` lies in one of the namespaces.
    pub fn is_match(&self, text: &String) -> (r: bool)
        ensures
            r == self.matches(text@),
    {
        self.exclusive.is_match(text) || self.non_exclusive.is_match(text)
    }

    /// Whether `text` lies in an exclusive namespace.
    pub fn is_exclusive_match(&self, text: &String) -> (r: bool)
        ensures
            r == self.matches_exclusively(text@),
    {
        self.exclusive.is_match(text)
    }
}

/// A registered application service (bridge).
pub struct RegistrationInfo {
    pub id: String,
    pub aliases: NamespaceRegex,
}

/// Whether some service of `appservices` holds `text` in an exclusive namespace.
pub open spec fn reserved_by_appservice(appservices: Seq<RegistrationInfo>, text: Seq<char>) -> bool {
    exists|i: int| 0 <= i < appservices.len() && #[trigger] appservices[i].aliases.matches_exclusively(text)
}

/// Whether the requester may manage the alias text `text`: a service only
/// inside its own namespaces, anyone else only outside every exclusive one.
pub open spec fn namespace_allows(
    appservices: Seq<RegistrationInfo>,
    requester: Option<RegistrationInfo>,
    text: Seq<char>,
) -> bool {
    match requester {
        Some(info) => info.aliases.matches(text),
        None => !reserved_by_appservice(appservices, text),
    }
}

/// The outcome of creating `alias` in a directory that holds `dir`.
pub open spec fn create_outcome(
    dir: Map<Seq<char>, Seq<char>>,
    own: Seq<char>,
    forbidden: Seq<Seq<char>>,
    appservices: Seq<RegistrationInfo>,
    requester: Option<RegistrationInfo>,
    alias: RoomAlias,
) -> Result<(), AliasError> {
    if alias.server() != own {
        Err(AliasError::InvalidInput)
    } else if set_matches(forbidden, alias.localpart()) {
        Err(AliasError::Forbidden)
    } else if !namespace_allows(appservices, requester, alias.text()) {
        Err(AliasError::Forbidden)
    } else if dir.contains_key(alias.text()) {
        Err(AliasError::Conflict)
    } else {
        Ok(())
    }
}

/// The outcome of deleting `alias` from a directory that holds `dir`.
pub open spec fn delete_outcome(
    dir: Map<Seq<char>, Seq<char>>,
    own: Seq<char>,
    appservices: Seq<RegistrationInfo>,
    requester: Option<RegistrationInfo>,
    alias: RoomAlias,
) -> Result<(), AliasError> {
    if alias.server() != own {
        Err(AliasError::InvalidInput)
    } else if !dir.contains_key(alias.text()) {
        Err(AliasError::NotFound)
    } else if !namespace_allows(appservices, requester, alias.text()) {
        Err(AliasError::Forbidden)
    } else {
        Ok(())
    }
}

/// The indices, in order, of the services among the first `n` of
/// `appservices` whose namespaces hold `text`.
pub open spec fn claiming_appservices(appservices: Seq<RegistrationInfo>, text: Seq<char>, n: nat) -> Seq<usize>
    decreases n,
{
    if n == 0 {
        Seq::empty()
    } else {
        let rest = claiming_appservices(appservices, text, (n - 1) as nat);
        if appservices[n - 1].aliases.matches(text) {
            rest.push((n - 1) as usize)
        } else {
            rest
        }
    }
}

/// The first step of resolving an alias, in the model.
pub enum LookupStep {
    /// Ask the alias's own server over federation.
    Remote,
    /// The alias maps to this room here.
    Found(Seq<char>),
    /// Ask these services, in order, whether they own the alias.
    AskAppservices(Seq<usize>),
    /// Nothing here knows the alias.
    Missing,
}

/// How resolution of `alias` begins against a directory holding `dir`.
pub open spec fn lookup_step(
    dir: Map<Seq<char>, Seq<char>>,
    own: Seq<char>,
    appservices: Seq<RegistrationInfo>,
    alias: RoomAlias,
) -> LookupStep {
    if alias.server() != own {
        LookupStep::Remote
    } else if dir.contains_key(alias.text()) {
        LookupStep::Found(dir[alias.text()])
    } else {
        let asked = claiming_appservices(appservices, alias.text(), appservices.len());
        if asked.len() == 0 {
            LookupStep::Missing
        } else {
            LookupStep::AskAppservices(asked)
        }
    }
}

/// The first step of resolving an alias.
pub enum AliasLookup {
    /// The alias belongs to another server: ask it over federation.
    Remote,
    /// The alias maps to this room.
    Found(String),
    /// Ask these registered services, in order, whether one of them owns the
    /// alias; stop at the first that does.
    AskAppservices(Vec<usize>),
}

impl AliasLookup {
    /// Whether this step is the model's `step`.
    pub open spec fn is_step(&self, step: LookupStep) -> bool {
        match self {
            AliasLookup::Remote => step is Remote,
            AliasLookup::Found(room) => step == LookupStep::Found(room@),
            AliasLookup::AskAppservices(v) => step == LookupStep::AskAppservices(v@),
        }
    }
}

/// A resolved alias: the room, and the servers to try joining through, in order.
pub struct AliasResponse {
    pub room_id: String,
    pub servers: Vec<String>,
}

/// What the alias's own server answered to a federation lookup.
pub struct RoomInformation {
    pub room_id: String,
    pub servers: Vec<String>,
}

/// The local alias directory: a map from alias text to room id.
pub struct AliasDirectory {
    entries: Vec<(String, String)>,
    model: Ghost<Map<Seq<char>, Seq<char>>>,
}

impl AliasDirectory {
    pub closed spec fn view(&self) -> Map<Seq<char>, Seq<char>> {
        self.model@
    }

    pub closed spec fn wf(&self) -> bool {
        &&& forall|i: int, j: int|
            0 <= i < j < self.entries@.len() ==> self.entries@[i].0@ != self.entries@[j].0@
        &&& forall|i: int|
            0 <= i < self.entries@.len() ==> #[trigger] self.model@.contains_key(self.entries@[i].0@)
                && self.model@[self.entries@[i].0@] == self.entries@[i].1@
        &&& forall|k: Seq<char>|
            #[trigger] self.model@.contains_key(k) ==> exists|i: int|
                0 <= i < self.entries@.len() && self.entries@[i].0@ == k
    }

    pub fn new() -> (r: Self)
        ensures
            r.wf(),
            r.view() == Map::<Seq<char>, Seq<char>>::empty(),
    {
        AliasDirectory { entries: Vec::new(), model: Ghost(Map::empty()) }
    }

    fn position(&self, text: &String) -> (r: Option<usize>)
        requires
            self.wf(),
        ensures
            match r {
                Some(i) => i < self.entries@.len() && self.entries@[i as int].0@ == text@,
                None => !self.view().contains_key(text@),
            },
    {
        let mut i: usize = 0;
        while i < self.entries.len()
            invariant
                i <= self.entries@.len(),
                forall|j: int| 0 <= j < i ==> self.entries@[j].0@ != text@,
            decreases self.entries.len() - i,
        {
            if self.entries[i].0 == *text {
                return Some(i);
            }
            i = i + 1;
        }
        None
    }

    /// The room that `alias` maps to here, if any.
    pub fn resolve_local_alias(&self, alias: &RoomAlias) -> (r: Option<String>)
        requires
            self.wf(),
        ensures
            r is Some <==> self.view().contains_key(alias.text()),
            r matches Some(room) ==> room@ == self.view()[alias.text()],
    {
        match self.position(alias.as_str()) {
            Some(i) => {
                assert(self.model@.contains_key(self.entries@[i as int].0@));
                Some(self.entries[i].1.clone())
            },
            None => None,
        }
    }

    /// Maps `alias` to `room_id`, replacing any earlier mapping.
    pub fn set_alias(&mut self, alias: &RoomAlias, room_id: &String)
        requires
            old(self).wf(),
        ensures
            final(self).wf(),
            final(self).view() == old(self).view().insert(alias.text(), room_id@),
    {
        let ghost t = alias.text();
        let ghost m = self.model@.insert(t, room_id@);
        match self.position(alias.as_str()) {
            Some(i) => {
                let ghost before = self.entries@;
                self.entries.set(i, (alias.as_str().clone(), room_id.clone()));
                self.model = Ghost(m);
                proof {
                    assert forall|k: Seq<char>| #[trigger] m.contains_key(k) implies exists|j: int|
                        0 <= j < self.entries@.len() && self.entries@[j].0@ == k by {
                        if k != t {
                            let j = choose|j: int| 0 <= j < before.len() && before[j].0@ == k;
                            assert(self.entries@[j].0@ == k);
                        } else {
                            assert(self.entries@[i as int].0@ == k);
                        }
                    }
                    assert forall|j: int| 0 <= j < self.entries@.len() implies #[trigger] m.contains_key(
                        self.entries@[j].0@,
                    ) && m[self.entries@[j].0@] == self.entries@[j].1@ by {
                        if j != i {
                            assert(self.entries@[j] == before[j]);
                            assert(old(self).model@.contains_key(before[j].0@));
                        }
                    }
                    assert forall|a: int, b: int| 0 <= a < b < self.entries@.len() implies self.entries@[a].0@
                        != self.entries@[b].0@ by {
                        assert(before[a].0@ != before[b].0@);
                    }
                }
            },
            None => {
                let ghost before = self.entries@;
                self.entries.push((alias.as_str().clone(), room_id.clone()));
                self.model = Ghost(m);
                proof {
                    assert forall|k: Seq<char>| #[trigger] m.contains_key(k) implies exists|j: int|
                        0 <= j < self.entries@.len() && self.entries@[j].0@ == k by {
                        if k != t {
                            let j = choose|j: int| 0 <= j < before.len() && before[j].0@ == k;
                            assert(self.entries@[j].0@ == k);
                        } else {
                            assert(self.entries@[before.len() as int].0@ == k);
                        }
                    }
                    assert forall|a: int, b: int| 0 <= a < b < self.entries@.len() implies self.entries@[a].0@
                        != self.entries@[b].0@ by {
                        if b == before.len() {
                            assert(old(self).model@.contains_key(before[a].0@));
                        }
                    }
                }
            },
        }
    }

    /// Removes the mapping of `alias`, if there is one.
    pub fn remove_alias(&mut self, alias: &RoomAlias)
        requires
            old(self).wf(),
        ensures
            final(self).wf(),
            final(self).view() == old(self).view().remove(alias.text()),
    {
        let ghost t = alias.text();
        let ghost m = self.model@.remove(t);
        match self.position(alias.as_str()) {
            Some(i) => {
                let ghost before = self.entries@;
                self.entries.remove(i);
                self.model = Ghost(m);
                proof {
                    assert forall|j: int| 0 <= j < self.entries@.len() implies #[trigger] m.contains_key(
                        self.entries@[j].0@,
                    ) && m[self.entries@[j].0@] == self.entries@[j].1@ by {
                        let jj = if j < i { j } else { j + 1 };
                        assert(self.entries@[j] == before[jj]);
                        assert(before[jj].0@ != before[i as int].0@);
                        assert(old(self).model@.contains_key(before[jj].0@));
                    }
                    assert forall|k: Seq<char>| #[trigger] m.contains_key(k) implies exists|j: int|
                        0 <= j < self.entries@.len() && self.entries@[j].0@ == k by {
                        let j = choose|j: int| 0 <= j < before.len() && before[j].0@ == k;
                        assert(j != i);
                        if j < i {
                            assert(self.entries@[j].0@ == k);
                        } else {
                            assert(self.entries@[j - 1].0@ == k);
                        }
                    }
                    assert forall|a: int, b: int| 0 <= a < b < self.entries@.len() implies self.entries@[a].0@
                        != self.entries@[b].0@ by {
                        let ia = if a < i { a } else { a + 1 };
                        let ib = if b < i { b } else { b + 1 };
                        assert(self.entries@[a] == before[ia]);
                        assert(self.entries@[b] == before[ib]);
                    }
                }
            },
            None => {
                assert(m =~= self.model@);
            },
        }
    }
}

/// Once an alias has been created, resolving it finds the room it was
/// created for.
pub proof fn lemma_created_alias_resolves(
    dir: Map<Seq<char>, Seq<char>>,
    own: Seq<char>,
    forbidden: Seq<Seq<char>>,
    appservices: Seq<RegistrationInfo>,
    requester: Option<RegistrationInfo>,
    alias: RoomAlias,
    room: Seq<char>,
)
    requires
        create_outcome(dir, own, forbidden, appservices, requester, alias) is Ok,
    ensures
        lookup_step(dir.insert(alias.text(), room), own, appservices, alias) == LookupStep::Found(room),
{
}

/// Once an alias has been deleted, it no longer resolves here; with no
/// service whose namespaces hold it, it is not found at all.
pub proof fn lemma_deleted_alias_is_gone(
    dir: Map<Seq<char>, Seq<char>>,
    own: Seq<char>,
    appservices: Seq<RegistrationInfo>,
    requester: Option<RegistrationInfo>,
    alias: RoomAlias,
)
    requires
        delete_outcome(dir, own, appservices, requester, alias) is Ok,
    ensures
        !(lookup_step(dir.remove(alias.text()), own, appservices, alias) is Found),
        appservices.len() == 0 ==> lookup_step(dir.remove(alias.text()), own, appservices, alias) is Missing,
{
}

/// Creating an alias a second time fails with a conflict, whatever room the
/// second request names, and the first mapping stays.
pub proof fn lemma_second_create_conflicts(
    dir: Map<Seq<char>, Seq<char>>,
    own: Seq<char>,
    forbidden: Seq<Seq<char>>,
    appservices: Seq<RegistrationInfo>,
    requester: Option<RegistrationInfo>,
    alias: RoomAlias,
    room: Seq<char>,
)
    requires
        create_outcome(dir, own, forbidden, appservices, requester, alias) is Ok,
    ensures
        create_outcome(dir.insert(alias.text(), room), own, forbidden, appservices, requester, alias)
            == Err::<(), AliasError>(AliasError::Conflict),
        dir.insert(alias.text(), room)[alias.text()] == room,
{
}

/// An alias of another server can be neither created nor deleted here,
/// whatever the directory, the settings or the requester.
pub proof fn lemma_foreign_alias_is_invalid(
    dir: Map<Seq<char>, Seq<char>>,
    own: Seq<char>,
    forbidden: Seq<Seq<char>>,
    appservices: Seq<RegistrationInfo>,
    requester: Option<RegistrationInfo>,
    alias: RoomAlias,
)
    requires
        alias.server() != own,
    ensures
        create_outcome(dir, own, forbidden, appservices, requester, alias) == Err::<(), AliasError>(
            AliasError::InvalidInput,
        ),
        delete_outcome(dir, own, appservices, requester, alias) == Err::<(), AliasError>(
            AliasError::InvalidInput,
        ),
{
}

} // verus!
