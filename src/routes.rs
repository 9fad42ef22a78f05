use vstd::prelude::*;
use crate::alias::{
    claiming_appservices, create_outcome, delete_outcome, lookup_step, namespace_allows,
    reserved_by_appservice, AliasDirectory, AliasError, AliasLookup, AliasResponse,
    RegistrationInfo, RoomAlias, RoomInformation,
};
use crate::globals::Service;
use crate::patterns::texts;
use crate::ruma_wrapper::Ruma;
use crate::servers::{is_ranking_of, rank_servers};

verus! {

/// A request to map an alias to a room.
pub struct CreateAliasRequest {
    pub room_alias: RoomAlias,
    pub room_id: String,
}

/// A request to remove an alias.
pub struct DeleteAliasRequest {
    pub room_alias: RoomAlias,
}

/// A request to resolve an alias.
pub struct GetAliasRequest {
    pub room_alias: RoomAlias,
}

/// Whether a service of `appservices` holds `text` in an exclusive namespace.
pub fn is_exclusive_alias(appservices: &Vec<RegistrationInfo>, text: &String) -> (r: bool)
    ensures
        r == reserved_by_appservice(appservices@, text@),
{
    let mut i: usize = 0;
    while i < appservices.len()
        invariant
            i <= appservices@.len(),
            forall|j: int| 0 <= j < i ==> !(#[trigger] appservices@[j].aliases.matches_exclusively(text@)),
        decreases appservices.len() - i,
    {
        if appservices[i].aliases.is_exclusive_match(text) {
            return true;
        }
        i = i + 1;
    }
    false
}

fn namespace_check(
    appservices: &Vec<RegistrationInfo>,
    requester: &Option<RegistrationInfo>,
    text: &String,
) -> (r: bool)
    ensures
        r == namespace_allows(appservices@, *requester, text@),
{
    match requester {
        Some(info) => info.aliases.is_match(text),
        None => !is_exclusive_alias(appservices, text),
    }
}

/// Creates a new alias on this server.
///
/// Fails if the alias belongs to another server, is forbidden by name, lies
/// outside what the requester may manage, or already maps to a room;
/// otherwise the alias maps to the requested room afterwards.
pub fn create_alias_route(
    globals: &Service,
    directory: &mut AliasDirectory,
    appservices: &Vec<RegistrationInfo>,
    body: &Ruma<CreateAliasRequest>,
) -> (r: Result<(), AliasError>)
    requires
        old(directory).wf(),
    ensures
        final(directory).wf(),
        r == create_outcome(
            old(directory).view(),
            globals.config.server_name@,
            globals.config.forbidden_alias_names.patterns(),
            appservices@,
            body.appservice_info,
            body.body.room_alias,
        ),
        final(directory).view() == (if r is Ok {
            old(directory).view().insert(body.body.room_alias.text(), body.body.room_id@)
        } else {
            old(directory).view()
        }),
{
    let alias = &body.body.room_alias;
    if *alias.server_name() != *globals.server_name() {
        return Err(AliasError::InvalidInput);
    }
    if globals.forbidden_alias_names().is_match(alias.alias()) {
        return Err(AliasError::Forbidden);
    }
    if !namespace_check(appservices, &body.appservice_info, alias.as_str()) {
        return Err(AliasError::Forbidden);
    }
    if directory.resolve_local_alias(alias).is_some() {
        return Err(AliasError::Conflict);
    }
    directory.set_alias(alias, &body.body.room_id);
    Ok(())
}

/// Deletes an alias of this server.
///
/// Fails if the alias belongs to another server, does not exist, or lies
/// outside what the requester may manage; otherwise it is gone afterwards.
pub fn delete_alias_route(
    globals: &Service,
    directory: &mut AliasDirectory,
    appservices: &Vec<RegistrationInfo>,
    body: &Ruma<DeleteAliasRequest>,
) -> (r: Result<(), AliasError>)
    requires
        old(directory).wf(),
    ensures
        final(directory).wf(),
        r == delete_outcome(
            old(directory).view(),
            globals.config.server_name@,
            appservices@,
            body.appservice_info,
            body.body.room_alias,
        ),
        final(directory).view() == (if r is Ok {
            old(directory).view().remove(body.body.room_alias.text())
        } else {
            old(directory).view()
        }),
{
    let alias = &body.body.room_alias;
    if *alias.server_name() != *globals.server_name() {
        return Err(AliasError::InvalidInput);
    }
    if directory.resolve_local_alias(alias).is_none() {
        return Err(AliasError::NotFound);
    }
    if !namespace_check(appservices, &body.appservice_info, alias.as_str()) {
        return Err(AliasError::Forbidden);
    }
    directory.remove_alias(alias);
    Ok(())
}

/// Begins resolving an alias: a foreign alias is asked of its server, a
/// local one is looked up here, and an unknown local one is asked of the
/// services whose namespaces hold it. With no such service it is not found.
pub fn get_alias_route(
    globals: &Service,
    directory: &AliasDirectory,
    appservices: &Vec<RegistrationInfo>,
    body: &Ruma<GetAliasRequest>,
) -> (r: Result<AliasLookup, AliasError>)
    requires
        directory.wf(),
    ensures
        ({
            let step = lookup_step(
                directory.view(),
                globals.config.server_name@,
                appservices@,
                body.body.room_alias,
            );
            match r {
                Ok(l) => l.is_step(step),
                Err(e) => e == AliasError::NotFound && step is Missing,
            }
        }),
{
    let alias = &body.body.room_alias;
    if *alias.server_name() != *globals.server_name() {
        return Ok(AliasLookup::Remote);
    }
    match directory.resolve_local_alias(alias) {
        Some(room) => Ok(AliasLookup::Found(room)),
        None => {
            let mut asked: Vec<usize> = Vec::new();
            let mut i: usize = 0;
            while i < appservices.len()
                invariant
                    i <= appservices@.len(),
                    asked@ == claiming_appservices(appservices@, alias.text(), i as nat),
                decreases appservices.len() - i,
            {
                if appservices[i].aliases.is_match(alias.as_str()) {
                    asked.push(i);
                }
                i = i + 1;
            }
            if asked.len() == 0 {
                Err(AliasError::NotFound)
            } else {
                Ok(AliasLookup::AskAppservices(asked))
            }
        },
    }
}

/// After a service has said that it owns `alias`: the room it mapped the
/// alias to. A missing mapping is a fault of the service's setup.
pub fn appservice_claimed(directory: &AliasDirectory, alias: &RoomAlias) -> (r: Result<String, AliasError>)
    requires
        directory.wf(),
    ensures
        match r {
            Ok(room) => directory.view().contains_key(alias.text()) && room@ == directory.view()[alias.text()],
            Err(e) => e == AliasError::ConfigInconsistency && !directory.view().contains_key(alias.text()),
        },
{
    match directory.resolve_local_alias(alias) {
        Some(room) => Ok(room),
        None => Err(AliasError::ConfigInconsistency),
    }
}

/// The answer for a local alias: the room, and the servers that take part
/// in it, ranked with this server first if it takes part.
pub fn local_alias_response(globals: &Service, room_id: String, room_servers: Vec<String>) -> (r: AliasResponse)
    ensures
        r.room_id == room_id,
        is_ranking_of(texts(r.servers@), texts(room_servers@), globals.config.server_name@, None),
{
    let servers = rank_servers(room_servers, globals.server_name(), None);
    AliasResponse { room_id, servers }
}

/// The candidates for a foreign alias: those the remote server named, the
/// remote server itself, and the servers known here to take part in the room.
pub open spec fn remote_candidates(
    remote: Seq<Seq<char>>,
    alias: RoomAlias,
    room_servers: Seq<Seq<char>>,
) -> Seq<Seq<char>> {
    remote.push(alias.server()) + room_servers
}

/// The answer for a foreign alias, from its server's reply: the room, and
/// the candidate servers ranked with this server first if present, else the
/// alias's own server.
pub fn remote_alias_response(
    globals: &Service,
    alias: &RoomAlias,
    response: RoomInformation,
    room_servers: Vec<String>,
) -> (r: AliasResponse)
    ensures
        r.room_id == response.room_id,
        is_ranking_of(
            texts(r.servers@),
            remote_candidates(texts(response.servers@), *alias, texts(room_servers@)),
            globals.config.server_name@,
            Some(alias.server()),
        ),
{
    let RoomInformation { room_id, servers } = response;
    let ghost remote = servers@;
    let mut servers = servers;
    servers.push(alias.server_name().clone());
    let mut i: usize = 0;
    let ghost pushed = servers@;
    while i < room_servers.len()
        invariant
            i <= room_servers@.len(),
            servers@ == pushed + room_servers@.subrange(0, i as int),
        decreases room_servers.len() - i,
    {
        servers.push(room_servers[i].clone());
        assert(room_servers@.subrange(0, i + 1) =~= room_servers@.subrange(0, i as int).push(room_servers@[i as int]));
        i = i + 1;
    }
    proof {
        assert(room_servers@.subrange(0, room_servers@.len() as int) =~= room_servers@);
        assert(texts(servers@) =~= remote_candidates(texts(remote), *alias, texts(room_servers@)));
    }
    let ranked = rank_servers(servers, globals.server_name(), Some(alias.server_name()));
    AliasResponse { room_id, servers: ranked }
}

} // verus!
