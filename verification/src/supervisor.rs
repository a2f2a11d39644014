//! The way of a request: to its site, to the handler, past the limits and to
//! the process.

use axum::http::HeaderMap;
use vstd::prelude::*;
use vstd::utf8::{encode_utf8, encode_utf8_decode_utf8, is_ascii_chars_encode_utf8};

use crate::headers::{announces_more, field_name, header_fields, header_text, passed_on,
    remove_hop_by_hop_headers, request_body_too_large, text_of, values_of};
use crate::launch::{upstream_url, url};
use crate::manifest::{find_route, first_route, lemma_first_route, Manifest, Serve};
use crate::number::{decimal, decimal_text, lemma_digits_look, lemma_digits_read_back};
use crate::path::{absolute, components, file_name, is_name, joined, law_join_appends,
    law_join_stays_within, lemma_name_is_one_component, parent_components, plain, same_path,
    within, FilePath, SEPARATOR};
use crate::reply::{response, Reply};
use crate::request::RequestHead;
use crate::resolver::{normalized, resolve, ResolveError, ResolvedSite, Resolution};
use crate::service::{ServiceState, Upstream};
use crate::text::{begins_with, chars_of, lower, string_views};

verus! {

// ---------------------------------------------------------------------------
// The services

/// The directory of the sites, and which services there are. A service is known
/// by its place in the order in which they were first asked for, and by a key,
/// a path that is not that of another.
#[derive(Debug)]
pub struct Supervisor {
    root: FilePath,
    keys: Vec<FilePath>,
}

/// The views of a list of paths.
pub open spec fn path_views(paths: Seq<FilePath>) -> Seq<Seq<u8>> {
    paths.map_values(|path: FilePath| path@)
}

/// Whether a path is among some keys, however it is written.
pub open spec fn has_key(keys: Seq<Seq<u8>>, key: Seq<u8>) -> bool {
    exists|i: int| 0 <= i < keys.len() && same_path(#[trigger] keys[i], key)
}

/// The keys once a service was asked for.
pub open spec fn with_key(keys: Seq<Seq<u8>>, key: Seq<u8>) -> Seq<Seq<u8>> {
    if has_key(keys, key) {
        keys
    } else {
        keys.push(key)
    }
}

/// Whether no two keys are the same path.
pub open spec fn distinct_keys(keys: Seq<Seq<u8>>) -> bool {
    forall|i: int, j: int|
        0 <= i < j < keys.len() ==> !same_path(#[trigger] keys[i], #[trigger] keys[j])
}

impl Supervisor {
    #[verifier::type_invariant]
    spec fn no_key_twice(self) -> bool {
        forall|i: int, j: int|
            0 <= i < j < self.keys@.len() ==> !same_path(
                (#[trigger] self.keys@[i])@,
                (#[trigger] self.keys@[j])@,
            )
    }

    /// The directory of the sites.
    pub closed spec fn root(self) -> Seq<u8> {
        self.root@
    }

    /// The keys of the services, in their order.
    pub closed spec fn keys(self) -> Seq<Seq<u8>> {
        path_views(self.keys@)
    }

    /// A supervisor of the sites below `root`, without services.
    pub fn new(root: FilePath) -> (supervisor: Supervisor)
        ensures
            supervisor.root() == root@,
            supervisor.keys() == Seq::<Seq<u8>>::empty(),
    {
        let supervisor = Supervisor { root, keys: Vec::new() };
        assert(supervisor.keys() =~= Seq::<Seq<u8>>::empty());
        supervisor
    }

    /// The place of the service with this key, however the path is written. A
    /// key that is new gets the next place.
    pub fn service_for(&mut self, key: &FilePath) -> (place: usize)
        ensures
            final(self).root() == old(self).root(),
            final(self).keys() == with_key(old(self).keys(), key@),
            place < final(self).keys().len(),
            same_path(final(self).keys()[place as int], key@),
            !has_key(old(self).keys(), key@) ==> place == old(self).keys().len(),
            distinct_keys(final(self).keys()),
    {
        proof {
            use_type_invariant(&*self);
        }
        let ghost before = self.keys();
        let mut i: usize = 0;
        while i < self.keys.len()
            invariant
                i <= self.keys@.len(),
                before == path_views(self.keys@),
                *self == *old(self),
                before == old(self).keys(),
                forall|k: int| 0 <= k < i ==> !same_path(#[trigger] before[k], key@),
                forall|a: int, b: int|
                    0 <= a < b < self.keys@.len() ==> !same_path(
                        (#[trigger] self.keys@[a])@,
                        (#[trigger] self.keys@[b])@,
                    ),
            decreases self.keys@.len() - i,
        {
            assert(before[i as int] == self.keys@[i as int]@);
            if self.keys[i].is_same(key) {
                assert(same_path(before[i as int], key@));
                assert(has_key(before, key@));
                assert(distinct_keys(before)) by {
                    assert forall|a: int, b: int| 0 <= a < b < before.len() implies !same_path(
                        #[trigger] before[a],
                        #[trigger] before[b],
                    ) by {
                        assert(before[a] == self.keys@[a]@);
                        assert(before[b] == self.keys@[b]@);
                    }
                }
                return i;
            }
            i = i + 1;
        }
        assert(!has_key(before, key@));
        let place = self.keys.len();
        let copy = key.copy();
        let mut keys: Vec<FilePath> = Vec::new();
        std::mem::swap(&mut self.keys, &mut keys);
        let ghost known = keys@;
        keys.push(copy);
        proof {
            assert forall|a: int, b: int| 0 <= a < b < keys@.len() implies !same_path(
                (#[trigger] keys@[a])@,
                (#[trigger] keys@[b])@,
            ) by {
                assert(before[a] == known[a]@);
                if b < known.len() {
                    assert(!same_path(known[a]@, known[b]@));
                }
            }
        }
        self.keys = keys;
        proof {
            let after = self.keys();
            assert(after =~= before.push(key@));
            assert forall|a: int, b: int| 0 <= a < b < after.len() implies !same_path(
                #[trigger] after[a],
                #[trigger] after[b],
            ) by {
                assert(after[a] == self.keys@[a]@);
                assert(after[b] == self.keys@[b]@);
            }
        }
        place
    }
}

// ---------------------------------------------------------------------------
// Changes on disk

/// Whether one of the paths is that of a manifest.
pub open spec fn names_manifest(paths: Seq<FilePath>) -> bool {
    exists|i: int|
        0 <= i < paths.len() && file_name((#[trigger] paths[i])@) == Some(encode_utf8("site.json"@))
}

/// Whether a path lies in a directory, or the directory in that of the path.
pub open spec fn is_near(path: Seq<u8>, directory: Seq<u8>) -> bool {
    within(path, directory) || match parent_components(path) {
        Some(parent) => parent.is_prefix_of(components(directory)),
        None => false,
    }
}

/// Whether one of the paths lies near a directory.
pub open spec fn one_is_near(paths: Seq<FilePath>, directory: Seq<u8>) -> bool {
    exists|i: int| 0 <= i < paths.len() && is_near((#[trigger] paths[i])@, directory)
}

fn some_manifest(paths: &Vec<FilePath>) -> (yes: bool)
    ensures
        yes == names_manifest(paths@),
{
    let mut i: usize = 0;
    while i < paths.len()
        invariant
            i <= paths@.len(),
            forall|k: int|
                0 <= k < i ==> file_name((#[trigger] paths@[k])@) != Some(
                    encode_utf8("site.json"@),
                ),
        decreases paths@.len() - i,
    {
        if paths[i].is_named("site.json") {
            assert(file_name(paths@[i as int]@) == Some(encode_utf8("site.json"@)));
            return true;
        }
        i = i + 1;
    }
    false
}

fn some_near(paths: &Vec<FilePath>, directory: &FilePath) -> (yes: bool)
    ensures
        yes == one_is_near(paths@, directory@),
{
    let mut i: usize = 0;
    while i < paths.len()
        invariant
            i <= paths@.len(),
            forall|k: int| 0 <= k < i ==> !is_near((#[trigger] paths@[k])@, directory@),
        decreases paths@.len() - i,
    {
        if paths[i].starts_with(directory) || paths[i].parent_holds(directory) {
            assert(is_near(paths@[i as int]@, directory@));
            return true;
        }
        i = i + 1;
    }
    false
}

impl Supervisor {
    /// Whether the service at this place is to be reloaded once these paths have
    /// changed.
    pub open spec fn is_reloaded(self, paths: Seq<FilePath>, place: int) -> bool {
        &&& 0 <= place < self.keys().len()
        &&& names_manifest(paths)
        &&& one_is_near(paths, self.keys()[place])
    }

    /// The services that are to be reloaded once these paths have changed: none
    /// unless one of them is that of a manifest, and else those near one of the
    /// paths.
    pub fn changed_services(&self, paths: &Vec<FilePath>) -> (places: Vec<usize>)
        ensures
            forall|k: int| 0 <= k < places@.len() ==> self.is_reloaded(
                paths@,
                (#[trigger] places@[k]) as int,
            ),
            forall|place: int| #[trigger]
                self.is_reloaded(paths@, place) ==> places@.contains(place as usize),
            forall|a: int, b: int| 0 <= a < b < places@.len() ==> places@[a] < places@[b],
    {
        let mut places: Vec<usize> = Vec::new();
        if !some_manifest(paths) {
            return places;
        }
        let mut i: usize = 0;
        while i < self.keys.len()
            invariant
                i <= self.keys@.len(),
                names_manifest(paths@),
                forall|k: int|
                    0 <= k < places@.len() ==> (#[trigger] places@[k]) < i && self.is_reloaded(
                        paths@,
                        places@[k] as int,
                    ),
                forall|place: int|
                    place < i && #[trigger] self.is_reloaded(paths@, place) ==> places@.contains(
                        place as usize,
                    ),
                forall|a: int, b: int| 0 <= a < b < places@.len() ==> places@[a] < places@[b],
            decreases self.keys@.len() - i,
        {
            assert(self.keys()[i as int] == self.keys@[i as int]@);
            if some_near(paths, &self.keys[i]) {
                let ghost before = places@;
                places.push(i);
                proof {
                    assert(self.is_reloaded(paths@, i as int));
                    assert forall|place: int|
                        place < i + 1 && #[trigger] self.is_reloaded(
                            paths@,
                            place,
                        ) implies places@.contains(place as usize) by {
                        if place < i {
                            assert(before.contains(place as usize));
                            let k = choose|k: int|
                                0 <= k < before.len() && before[k] == place as usize;
                            assert(places@[k] == place as usize);
                        } else {
                            assert(places@[before.len() as int] == i);
                        }
                    }
                }
            } else {
                assert(!self.is_reloaded(paths@, i as int));
            }
            i = i + 1;
        }
        places
    }
}

// ---------------------------------------------------------------------------
// The site and the handler

/// The host that a request names, empty where it names none.
pub open spec fn host_of(request: RequestHead) -> Seq<char> {
    match text_of(header_fields(request.headers), "host"@) {
        Some(host) => host,
        None => Seq::empty(),
    }
}

/// By what a request is answered.
#[derive(Debug)]
pub enum Handling {
    /// By this reply.
    Answer(Reply),
    /// From the files of the site.
    Static(ResolvedSite),
    /// By the process of the site, over HTTP.
    Proxy(ResolvedSite),
    /// By a program of the site, over standard input and output.
    Stdio(ResolvedSite),
    /// By the process of the site, over FastCGI.
    Fastcgi(ResolvedSite),
}

impl Handling {
    /// Whether this is how `site` answers.
    pub open spec fn is_by(self, site: ResolvedSite) -> bool {
        match site.manifest.serve {
            Serve::Static { .. } => self == Handling::Static(site),
            Serve::Http { .. } => self == Handling::Proxy(site),
            Serve::Stdio { .. } => self == Handling::Stdio(site),
            Serve::Fastcgi { .. } => self == Handling::Fastcgi(site),
        }
    }
}

/// The key of the service behind the route at a place.
pub open spec fn route_key(manifest_directory: Seq<u8>, index: nat) -> Seq<u8> {
    joined(manifest_directory, encode_utf8(".multi-server-route-"@ + decimal_text(index)))
}

/// Whether `after` is `before` with the handler of the first route for a path,
/// which has a service of its own, or `before` itself where there is none.
pub open spec fn routed(before: ResolvedSite, path: Seq<char>, after: ResolvedSite) -> bool {
    match first_route(before.manifest.routes@, path) {
        Some(index) => {
            &&& after.domain == before.domain
            &&& after.manifest_directory == before.manifest_directory
            &&& after.directory == before.directory
            &&& after.runtime_key@ == route_key(before.manifest_directory@, index as nat)
            &&& after.manifest.serve.same_as(before.manifest.routes@[index].serve)
            &&& after.manifest.routes == before.manifest.routes
            &&& after.manifest.version == before.manifest.version
            &&& after.manifest.site_root == before.manifest.site_root
            &&& after.manifest.domains == before.manifest.domains
            &&& after.manifest.prepare == before.manifest.prepare
            &&& after.manifest.lifecycle == before.manifest.lifecycle
            &&& after.manifest.limits == before.manifest.limits
        },
        None => after == before,
    }
}

fn apply_route(site: ResolvedSite, path: &str) -> (after: ResolvedSite)
    ensures
        routed(site, path@, after),
{
    match find_route(&site.manifest.routes, path) {
        None => site,
        Some(index) => {
            let number = decimal(index as u64);
            let name = ".multi-server-route-".to_string().concat(number.as_str());
            let runtime_key = site.manifest_directory.join(name.as_str());
            let serve = site.manifest.routes[index].serve.copy();
            ResolvedSite {
                domain: site.domain,
                manifest_directory: site.manifest_directory,
                directory: site.directory,
                runtime_key,
                manifest: Manifest {
                    version: site.manifest.version,
                    site_root: site.manifest.site_root,
                    domains: site.manifest.domains,
                    serve,
                    routes: site.manifest.routes,
                    prepare: site.manifest.prepare,
                    lifecycle: site.manifest.lifecycle,
                    limits: site.manifest.limits,
                },
            }
        },
    }
}

impl Supervisor {
    /// Starts the search for the site that a request is for.
    pub fn lookup(&self, request: &RequestHead) -> (search: Result<Resolution, ResolveError>)
        ensures
            match search {
                Ok(resolution) => resolution.root() == self.root() && normalized(host_of(*request))
                    == Some(resolution.domain()) && resolution.tried() == 0,
                Err(error) => normalized(host_of(*request)) is None && error
                    == ResolveError::InvalidHost,
            },
    {
        proof {
            reveal_strlit("host");
            assert(field_name("host"@));
            assert(lower("host"@) =~= "host"@);
        }
        let host = match header_text(&request.headers, "host") {
            Some(host) => host,
            None => String::new(),
        };
        resolve(&self.root, host.as_str())
    }

    /// By what a request is answered, once the search for its site is over.
    pub fn handle(&self, request: &RequestHead, found: Option<ResolvedSite>) -> (handling: Handling)
        ensures
            match found {
                Some(site) => exists|after: ResolvedSite| #[trigger]
                    routed(site, request.path@, after) && handling.is_by(after),
                None => handling matches Handling::Answer(reply) && reply.is_text(
                    404,
                    "unknown domain\n"@,
                ),
            },
    {
        match found {
            None => Handling::Answer(response(404, "unknown domain\n")),
            Some(site) => {
                let after = apply_route(site, request.path.as_str());
                assert(routed(site, request.path@, after));
                match &after.manifest.serve {
                    Serve::Static { .. } => Handling::Static(after),
                    Serve::Http { .. } => Handling::Proxy(after),
                    Serve::Stdio { .. } => Handling::Stdio(after),
                    Serve::Fastcgi { .. } => Handling::Fastcgi(after),
                }
            },
        }
    }
}

// ---------------------------------------------------------------------------
// The limits

/// Whether a path begins like one of the paths that keep a process running.
pub open spec fn is_activity(site: ResolvedSite, path: Seq<char>) -> bool {
    exists|i: int|
        0 <= i < site.manifest.lifecycle.activity_paths@.len() && (
        #[trigger] site.manifest.lifecycle.activity_paths@[i])@.is_prefix_of(path)
}

/// Whether a request for `path` renews the idle time of its process.
pub fn path_is_activity(site: &ResolvedSite, path: &str) -> (yes: bool)
    ensures
        yes == is_activity(*site, path@),
{
    let chars = chars_of(path);
    let prefixes = &site.manifest.lifecycle.activity_paths;
    let mut i: usize = 0;
    while i < prefixes.len()
        invariant
            i <= prefixes@.len(),
            chars@ == path@,
            prefixes@ == site.manifest.lifecycle.activity_paths@,
            forall|k: int|
                0 <= k < i ==> !(#[trigger] site.manifest.lifecycle.activity_paths@[k])@.is_prefix_of(
                    path@,
                ),
        decreases prefixes@.len() - i,
    {
        let front = chars_of(prefixes[i].as_str());
        if begins_with(chars.as_slice(), front.as_slice()) {
            assert(site.manifest.lifecycle.activity_paths@[i as int]@.is_prefix_of(path@));
            return true;
        }
        i = i + 1;
    }
    false
}

/// Whether a request is let in.
#[derive(Debug)]
pub enum Admission {
    /// It is not.
    Refused(Reply),
    /// It is, and has to be taken out of the service again.
    Admitted {
        /// Whether it renews the idle time.
        renew_idle: bool,
    },
}

/// Lets a request in to a service, unless its body is too large or too many
/// requests are being answered.
pub fn begin_answer(site: &ResolvedSite, request: &RequestHead, state: &mut ServiceState, now: u128) -> (
admission: Admission)
    ensures
        if announces_more(
            header_fields(request.headers),
            site.manifest.limits.request_body_bytes as nat,
        ) {
            &&& admission matches Admission::Refused(reply)
            &&& reply.is_text(413, "request body too large\n"@)
            &&& *final(state) == *old(state)
        } else if !old(state).admits(site.manifest.limits.max_concurrent_requests) {
            &&& admission matches Admission::Refused(reply)
            &&& reply.is_text(503, "site concurrency limit reached\n"@)
            &&& *final(state) == *old(state)
        } else {
            &&& admission == (Admission::Admitted {
                renew_idle: is_activity(*site, request.path@),
            })
            &&& *final(state) == old(state).begun(is_activity(*site, request.path@), now)
        },
        admission is Admitted <==> !announces_more(
            header_fields(request.headers),
            site.manifest.limits.request_body_bytes as nat,
        ) && old(state).active_requests < site.manifest.limits.max_concurrent_requests,
        admission is Refused ==> final(state).active_requests == old(state).active_requests
            && final(state).last_activity == old(state).last_activity,
        admission is Admitted ==> final(state).active_requests == old(state).active_requests + 1,
        admission matches Admission::Admitted { renew_idle } ==> final(state).last_activity
            == if renew_idle {
            now
        } else {
            old(state).last_activity
        },
        admission matches Admission::Refused(reply) ==> reply.status == 413 || reply.status == 503,
{
    if request_body_too_large(&request.headers, site.manifest.limits.request_body_bytes) {
        return Admission::Refused(response(413, "request body too large\n"));
    }
    let renew_idle = path_is_activity(site, request.path.as_str());
    if !state.begin_request(site.manifest.limits.max_concurrent_requests, renew_idle, now) {
        return Admission::Refused(response(503, "site concurrency limit reached\n"));
    }
    Admission::Admitted { renew_idle }
}

/// How much of a request body has come in.
#[derive(Debug)]
pub struct BodyMeter {
    /// The number of bytes.
    pub received: usize,
    /// The largest number of bytes that is passed on.
    pub limit: usize,
}

/// The error of a body that is too long.
pub fn body_limit_message() -> (text: String)
    ensures
        text@ == "request body limit exceeded"@,
{
    "request body limit exceeded".to_string()
}

impl BodyMeter {
    /// A body of which nothing has come in.
    pub fn new(limit: usize) -> (meter: BodyMeter)
        ensures
            meter == (BodyMeter { received: 0, limit }),
    {
        BodyMeter { received: 0, limit }
    }

    /// Counts one more chunk. It is passed on only if the body is still within
    /// the limit.
    pub fn take_chunk(&mut self, length: usize) -> (passed: bool)
        ensures
            final(self).limit == old(self).limit,
            final(self).received == if old(self).received + length > usize::MAX {
                usize::MAX as int
            } else {
                old(self).received + length
            },
            passed == (final(self).received <= old(self).limit),
            old(self).limit < usize::MAX ==> passed == (old(self).received + length
                <= old(self).limit),
            old(self).received + length <= old(self).limit ==> passed && final(self).received
                == old(self).received + length,
    {
        self.received = self.received.saturating_add(length);
        self.received <= self.limit
    }
}

// ---------------------------------------------------------------------------
// To the process

/// A request as it is passed on to a process.
#[derive(Debug)]
pub struct ProxyRequest {
    /// What is requested.
    pub url: String,
    /// The header fields.
    pub headers: HeaderMap,
}

/// A request as it is passed on to a process: without the fields that concern
/// its connection.
pub fn proxy_to_upstream(upstream: &Upstream, target: &Option<String>, headers: HeaderMap) -> (
passed: ProxyRequest)
    ensures
        passed.url@ == url(
            upstream.host@,
            upstream.port,
            match *target {
                Some(text) => text@,
                None => "/"@,
            },
        ),
        target matches Some(text) ==> passed.url@ == url(upstream.host@, upstream.port, text@),
        target is None ==> passed.url@ == url(upstream.host@, upstream.port, "/"@),
        forall|name: Seq<char>| #[trigger]
            values_of(header_fields(passed.headers), name) == passed_on(
                header_fields(headers),
                name,
            ),
{
    let text = match target {
        Some(text) => text.as_str(),
        None => "/",
    };
    let mut kept = headers;
    remove_hop_by_hop_headers(&mut kept);
    ProxyRequest { url: upstream_url(upstream, text), headers: kept }
}

// ---------------------------------------------------------------------------
// Laws

/// A request to a running process whose path is not one of the activity paths
/// leaves the idle time and the number of requests as they were, from its demand
/// to its end, and one whose path is renews the idle time.
pub proof fn law_other_paths_do_not_renew(
    site: ResolvedSite,
    path: Seq<char>,
    state: ServiceState,
    demand: u128,
    begin: u128,
    end: u128,
)
    requires
        state.phase is Running,
        !state.dirty,
        state.admits(site.manifest.limits.max_concurrent_requests),
    ensures
        ({
            let renews = is_activity(site, path);
            let after = state.demanded(demand).begun(renews, begin).ended(renews, end);
            &&& after.active_requests == state.active_requests
            &&& !renews ==> after.last_activity == state.last_activity
            &&& renews ==> after.last_activity == end
            &&& !renews ==> after == state
        }),
{
}

/// A service keeps its place, whatever services are asked for later, and two
/// paths share one only if they are the same path.
pub proof fn law_place_is_kept(keys: Seq<Seq<u8>>, place: int, other: Seq<u8>)
    requires
        0 <= place < keys.len(),
    ensures
        with_key(keys, other)[place] == keys[place],
        same_path(keys[place], other) ==> with_key(keys, other) == keys,
{
}

proof fn lemma_manifest_name()
    ensures
        !absolute(encode_utf8("site.json"@)),
        components(encode_utf8("site.json"@)) == seq![encode_utf8("site.json"@)],
        plain(encode_utf8("site.json"@)),
        is_name(encode_utf8("site.json"@)),
{
    reveal_strlit("site.json");
    let text = "site.json"@;
    let name = encode_utf8(text);
    is_ascii_chars_encode_utf8(text);
    assert(name.len() == 9);
    assert forall|i: int| 0 <= i < name.len() implies #[trigger] name[i] != SEPARATOR by {
        assert(text[i] as u8 == name[i]);
    }
    lemma_name_is_one_component(name);
}

proof fn lemma_route_name(index: nat)
    ensures
        !absolute(encode_utf8(".multi-server-route-"@ + decimal_text(index))),
        plain(encode_utf8(".multi-server-route-"@ + decimal_text(index))),
        components(encode_utf8(".multi-server-route-"@ + decimal_text(index))) == seq![
            encode_utf8(".multi-server-route-"@ + decimal_text(index)),
        ],
{
    reveal_strlit(".multi-server-route-");
    let front = ".multi-server-route-"@;
    let digits = decimal_text(index);
    let text = front + digits;
    let name = encode_utf8(text);
    lemma_digits_look(index, 10);
    assert forall|i: int| 0 <= i < text.len() implies '\0' <= #[trigger] text[i] <= '\u{7f}' && text[i]
        != '/' by {
        if i < front.len() {
            assert(text[i] == front[i]);
        } else {
            assert(text[i] == digits[i - front.len()]);
        }
    }
    is_ascii_chars_encode_utf8(text);
    assert(name.len() == text.len() && name.len() > 20);
    assert forall|i: int| 0 <= i < name.len() implies #[trigger] name[i] != SEPARATOR by {
        assert(text[i] as u8 == name[i]);
    }
    lemma_name_is_one_component(name);
}

/// A change of the manifest in a directory reaches every service of the site
/// there: that of the site itself, and those of its routes.
pub proof fn law_manifest_change_reaches_site(directory: Seq<u8>, index: nat, paths: Seq<FilePath>, at: int)
    requires
        0 <= at < paths.len(),
        paths[at]@ == joined(directory, encode_utf8("site.json"@)),
    ensures
        names_manifest(paths),
        one_is_near(paths, directory),
        one_is_near(paths, route_key(directory, index)),
{
    let name = encode_utf8("site.json"@);
    let path = paths[at]@;
    lemma_manifest_name();
    law_join_appends(directory, name);
    assert(components(path) == components(directory).push(name)) by {
        assert(components(directory) + seq![name] =~= components(directory).push(name));
    }
    assert(components(path).last() == name);
    assert(file_name(path) == Some(name));
    law_join_stays_within(directory, name);
    assert(is_near(path, directory));
    assert(components(path).drop_last() =~= components(directory));
    lemma_route_name(index);
    law_join_stays_within(
        directory,
        encode_utf8(".multi-server-route-"@ + decimal_text(index)),
    );
    assert(is_near(path, route_key(directory, index)));
}

/// Changes of other files reach no service.
pub proof fn law_other_changes_are_ignored(supervisor: Supervisor, paths: Seq<FilePath>, place: int)
    requires
        forall|i: int|
            0 <= i < paths.len() ==> file_name((#[trigger] paths[i])@) != Some(
                encode_utf8("site.json"@),
            ),
    ensures
        !supervisor.is_reloaded(paths, place),
{
}

/// Every route of a site has a service of its own, which is not that of the
/// site.
pub proof fn law_routes_have_own_services(directory: Seq<u8>, a: nat, b: nat)
    ensures
        !same_path(route_key(directory, a), directory),
        a != b ==> !same_path(route_key(directory, a), route_key(directory, b)),
{
    let front = ".multi-server-route-"@;
    let first = front + decimal_text(a);
    let second = front + decimal_text(b);
    lemma_route_name(a);
    lemma_route_name(b);
    law_join_appends(directory, encode_utf8(first));
    law_join_appends(directory, encode_utf8(second));
    let inner = components(directory);
    assert(components(route_key(directory, a)).len() == inner.len() + 1);
    if same_path(route_key(directory, a), route_key(directory, b)) {
        assert(components(route_key(directory, a)).last() == encode_utf8(first));
        assert(components(route_key(directory, b)).last() == encode_utf8(second));
        encode_utf8_decode_utf8(first);
        encode_utf8_decode_utf8(second);
        assert(first.skip(front.len() as int) =~= decimal_text(a));
        assert(second.skip(front.len() as int) =~= decimal_text(b));
        let max = a + b;
        lemma_digits_read_back(a, 10, max);
        lemma_digits_read_back(b, 10, max);
    }
}

/// The handler of a route can be served wherever the manifest can.
pub proof fn law_routing_keeps_acceptable(before: ResolvedSite, path: Seq<char>, after: ResolvedSite)
    requires
        routed(before, path, after),
        before.manifest.acceptable(),
    ensures
        after.manifest.acceptable(),
{
    lemma_first_route(before.manifest.routes@, path);
    if let Some(index) = first_route(before.manifest.routes@, path) {
        let chosen = before.manifest.routes@[index].serve;
        assert(chosen.runnable());
        if let (Some(a), Some(b)) = (after.manifest.serve.command(), chosen.command()) {
            assert(string_views(a).len() == string_views(b).len());
        }
    }
}

/// A key that is the same path as one that is there adds none; any other is
/// added at the end, and those that are there stay in their places.
pub proof fn law_keys_grow(keys: Seq<Seq<u8>>, key: Seq<u8>)
    ensures
        (exists|i: int|
            0 <= i < keys.len() && components(#[trigger] keys[i]) == components(key)) ==> with_key(
            keys,
            key,
        ) == keys,
        (forall|i: int|
            0 <= i < keys.len() ==> components(#[trigger] keys[i]) != components(key)) ==> with_key(
            keys,
            key,
        ) == keys.push(key),
        has_key(with_key(keys, key), key),
{
    if exists|i: int| 0 <= i < keys.len() && components(#[trigger] keys[i]) == components(key) {
        let i = choose|i: int|
            0 <= i < keys.len() && components(#[trigger] keys[i]) == components(key);
        assert(same_path(keys[i], key));
    }
    if !has_key(keys, key) {
        let all = keys.push(key);
        assert(same_path(all[keys.len() as int], key));
    }
}

/// A path is near a directory if and only if it lies in it, or in a directory in
/// which that one lies too.
pub proof fn law_near(path: Seq<u8>, directory: Seq<u8>)
    ensures
        is_near(path, directory) <==> within(path, directory) || (parent_components(path) matches Some(
            parent,
        ) && parent.len() <= components(directory).len() && forall|i: int|
            0 <= i < parent.len() ==> #[trigger] parent[i] == components(directory)[i]),
{
    if let Some(parent) = parent_components(path) {
        let inner = components(directory);
        if parent.is_prefix_of(inner) {
            assert forall|i: int| 0 <= i < parent.len() implies #[trigger] parent[i] == inner[i] by {
                assert(inner.subrange(0, parent.len() as int)[i] == inner[i]);
            }
        }
        if parent.len() <= inner.len() && forall|i: int|
            0 <= i < parent.len() ==> #[trigger] parent[i] == inner[i] {
            assert(inner.subrange(0, parent.len() as int) =~= parent);
        }
    }
}

/// A change of the manifest of one site reaches no other: neither the service of
/// another site below the same root, nor those of its routes.
pub proof fn law_other_sites_are_left(
    root: Seq<u8>,
    name: Seq<u8>,
    other: Seq<u8>,
    index: nat,
    paths: Seq<FilePath>,
)
    requires
        name.len() > 0 && is_name(name) && forall|i: int|
            0 <= i < name.len() ==> #[trigger] name[i] != SEPARATOR,
        other.len() > 0 && is_name(other) && forall|i: int|
            0 <= i < other.len() ==> #[trigger] other[i] != SEPARATOR,
        name != other,
        forall|k: int|
            0 <= k < paths.len() ==> (#[trigger] paths[k])@ == joined(
                joined(root, name),
                encode_utf8("site.json"@),
            ),
    ensures
        !one_is_near(paths, joined(root, other)),
        !one_is_near(paths, route_key(joined(root, other), index)),
{
    let file = encode_utf8("site.json"@);
    let site = joined(root, name);
    let path = joined(site, file);
    let neighbour = joined(root, other);
    let route = encode_utf8(".multi-server-route-"@ + decimal_text(index));
    let at = components(root).len() as int;
    lemma_name_is_one_component(name);
    lemma_name_is_one_component(other);
    lemma_manifest_name();
    lemma_route_name(index);
    law_join_appends(root, name);
    law_join_appends(root, other);
    law_join_appends(site, file);
    law_join_appends(neighbour, route);
    let parts = components(path);
    let near = components(neighbour);
    let routed_parts = components(route_key(neighbour, index));
    assert(parts[at] == name);
    assert(near[at] == other);
    assert(routed_parts[at] == other);
    let parent = parts.drop_last();
    assert(parent[at] == name);
    assert(parts.last() == file);
    assert(file != crate::path::root_part());
    assert(parent_components(path) == Some(parent));
    law_near(path, neighbour);
    law_near(path, route_key(neighbour, index));
    crate::path::law_within(path, neighbour);
    crate::path::law_within(path, route_key(neighbour, index));
    assert(!is_near(path, neighbour)) by {
        if within(path, neighbour) {
            assert(parts[at] == near[at]);
        }
    }
    assert(!is_near(path, route_key(neighbour, index))) by {
        if within(path, route_key(neighbour, index)) {
            assert(parts[at] == routed_parts[at]);
        }
    }
}

/// A service is reloaded if and only if one of the changed paths is that of a
/// manifest and one of them is near its key.
pub proof fn law_reloaded(supervisor: Supervisor, paths: Seq<FilePath>, place: int)
    requires
        0 <= place < supervisor.keys().len(),
    ensures
        supervisor.is_reloaded(paths, place) <==> (exists|i: int|
            0 <= i < paths.len() && file_name((#[trigger] paths[i])@) == Some(
                encode_utf8("site.json"@),
            )) && (exists|i: int|
            0 <= i < paths.len() && is_near((#[trigger] paths[i])@, supervisor.keys()[place])),
{
}

/// The host that a request names is the text of its field `host`.
pub proof fn law_host_of_request(request: RequestHead)
    ensures
        text_of(header_fields(request.headers), "host"@) matches Some(host) ==> host_of(request)
            == host,
        text_of(header_fields(request.headers), "host"@) is None ==> host_of(request).len() == 0,
{
}

/// A site answers by its handler: from files, by a process over HTTP or FastCGI,
/// or by a program for each request.
pub proof fn law_handled_by_handler(handling: Handling, site: ResolvedSite)
    requires
        handling.is_by(site),
    ensures
        site.manifest.serve is Static ==> handling == Handling::Static(site),
        site.manifest.serve is Http ==> handling == Handling::Proxy(site),
        site.manifest.serve is Stdio ==> handling == Handling::Stdio(site),
        site.manifest.serve is Fastcgi ==> handling == Handling::Fastcgi(site),
{
}

/// Where no route is for a path, the site is as it was.
pub proof fn law_no_route(before: ResolvedSite, path: Seq<char>, after: ResolvedSite)
    requires
        routed(before, path, after),
        forall|i: int|
            0 <= i < before.manifest.routes@.len() ==> !(
            #[trigger] before.manifest.routes@[i]).is_for(path),
    ensures
        after == before,
{
    lemma_first_route(before.manifest.routes@, path);
}

/// The first route that is for a path gives its handler, and the service is its
/// own: that of a name below the directory of the manifest with the number of the
/// route in it. Everything else of the site stays: its files, its limits, when
/// its process is stopped and how it is prepared.
pub proof fn law_first_route_counts(
    before: ResolvedSite,
    path: Seq<char>,
    after: ResolvedSite,
    index: int,
)
    requires
        routed(before, path, after),
        0 <= index < before.manifest.routes@.len(),
        before.manifest.routes@[index].is_for(path),
        forall|i: int|
            0 <= i < index ==> !(#[trigger] before.manifest.routes@[i]).is_for(path),
    ensures
        after.manifest.serve.same_as(before.manifest.routes@[index].serve),
        after.runtime_key@ == joined(
            before.manifest_directory@,
            encode_utf8(".multi-server-route-"@ + decimal_text(index as nat)),
        ),
        after.domain@ == before.domain@,
        after.manifest_directory@ == before.manifest_directory@,
        after.directory@ == before.directory@,
        after.manifest.prepare == before.manifest.prepare,
        after.manifest.lifecycle == before.manifest.lifecycle,
        after.manifest.limits == before.manifest.limits,
        after.manifest.domains == before.manifest.domains,
        after.manifest.site_root == before.manifest.site_root,
        after.manifest.version == before.manifest.version,
        after.manifest.routes == before.manifest.routes,
{
    lemma_first_route(before.manifest.routes@, path);
    let found = first_route(before.manifest.routes@, path);
    assert(found is Some) by {
        if found is None {
            assert(!before.manifest.routes@[index].is_for(path));
        }
    }
    let i = found->Some_0;
    if i < index {
        assert(!before.manifest.routes@[i].is_for(path));
    } else if index < i {
        assert(!before.manifest.routes@[index].is_for(path));
    }
}

/// A request keeps a process running if its path begins with one of the activity
/// paths.
pub proof fn law_activity_by_prefix(site: ResolvedSite, index: int, rest: Seq<char>)
    requires
        0 <= index < site.manifest.lifecycle.activity_paths@.len(),
    ensures
        is_activity(site, site.manifest.lifecycle.activity_paths@[index]@ + rest),
{
    let prefix = site.manifest.lifecycle.activity_paths@[index]@;
    assert((prefix + rest).subrange(0, prefix.len() as int) =~= prefix);
    assert(site.manifest.lifecycle.activity_paths@[index]@.is_prefix_of(prefix + rest));
}

/// No other request does.
pub proof fn law_only_activity_by_prefix(site: ResolvedSite, path: Seq<char>)
    requires
        is_activity(site, path),
    ensures
        exists|i: int, rest: Seq<char>|
            0 <= i < site.manifest.lifecycle.activity_paths@.len() && path == #[trigger] (
            site.manifest.lifecycle.activity_paths@[i]@ + rest),
{
    let i = choose|i: int|
        0 <= i < site.manifest.lifecycle.activity_paths@.len() && (
        #[trigger] site.manifest.lifecycle.activity_paths@[i])@.is_prefix_of(path);
    let prefix = site.manifest.lifecycle.activity_paths@[i]@;
    let rest = path.skip(prefix.len() as int);
    assert(path =~= prefix + rest);
}

/// The views of a list are those of its items, one by one and in their order.
pub proof fn law_path_views(paths: Seq<FilePath>)
    ensures
        path_views(paths).len() == paths.len(),
        forall|i: int| 0 <= i < paths.len() ==> #[trigger] path_views(paths)[i] == paths[i]@,
{
}

/// Distinct keys are those of which no two have the same components.
pub proof fn law_distinct_keys(keys: Seq<Seq<u8>>, i: int, j: int)
    requires
        distinct_keys(keys),
        0 <= i < keys.len(),
        0 <= j < keys.len(),
        i != j,
    ensures
        components(keys[i]) != components(keys[j]),
{
    if i < j {
        assert(!same_path(keys[i], keys[j]));
    } else {
        assert(!same_path(keys[j], keys[i]));
    }
}

} // verus!
