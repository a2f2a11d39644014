//! From a `Host` header to the site that answers for it.

use vstd::prelude::*;
use vstd::utf8::{encode_utf8, is_ascii_chars_encode_utf8};

use crate::manifest::{Manifest, ManifestError};
use crate::path::{components, is_name, joined, law_join_appends, lemma_name_is_one_component,
    FilePath, DOT, SEPARATOR};
use crate::text::{chars_of, law_marks_are_taken_off, law_trimmed, lemma_position,
    lemma_position_is, lemma_split_joined, lemma_split_listed, listed, lower, position,
    same_but_case, same_ignoring_case, split, split_on, string_of, string_views, to_lower, trim,
    trim_trailing, trimmed, views_of, white_space, without_trailing};

verus! {

/// A site that answers for a host name.
#[derive(Debug)]
pub struct ResolvedSite {
    /// The host name.
    pub domain: String,
    /// The directory of the manifest.
    pub manifest_directory: FilePath,
    /// The directory of the site's files.
    pub directory: FilePath,
    /// What tells the processes of one site from those of another.
    pub runtime_key: FilePath,
    /// What the manifest says.
    pub manifest: Manifest,
}

/// Why no site can be looked up.
#[derive(Debug)]
pub enum ResolveError {
    /// The `Host` header does not hold a host name.
    InvalidHost,
    /// The disk did not tell whether a manifest is there.
    Inspection,
    /// The manifest is refused.
    Manifest(ManifestError),
    /// The directory of sites could not be walked.
    Scan(String),
}

impl ResolveError {
    /// What the error says.
    pub open spec fn text(self) -> Seq<char> {
        match self {
            ResolveError::InvalidHost => "invalid Host header"@,
            ResolveError::Inspection => "failed to inspect site directory"@,
            ResolveError::Manifest(error) => error.text(),
            ResolveError::Scan(message) => message@,
        }
    }

    /// What the error says.
    pub fn message(&self) -> (text: String)
        ensures
            text@ == self.text(),
    {
        match self {
            ResolveError::InvalidHost => "invalid Host header".to_string(),
            ResolveError::Inspection => "failed to inspect site directory".to_string(),
            ResolveError::Manifest(error) => error.message(),
            ResolveError::Scan(message) => message.clone(),
        }
    }
}

// ---------------------------------------------------------------------------
// Host names

/// The host name in a `Host` header: without surrounding white space, final
/// dots and the port, in lower case.
pub open spec fn host_part(host: Seq<char>) -> Seq<char> {
    lower(split_on(without_trailing(trimmed(host), '.'), ':')[0])
}

/// A character that may stand in a host name.
pub open spec fn host_char(c: char) -> bool {
    'a' <= c <= 'z' || 'A' <= c <= 'Z' || '0' <= c <= '9' || c == '.' || c == '-'
}

/// A label of a host name: not empty, and with no hyphen at either end.
pub open spec fn host_label(label: Seq<char>) -> bool {
    label.len() > 0 && label[0] != '-' && label.last() != '-'
}

/// A host name: at most 253 characters, in labels that dots separate.
pub open spec fn host_name(name: Seq<char>) -> bool {
    &&& 0 < name.len() <= 253
    &&& forall|i: int| 0 <= i < name.len() ==> host_char(#[trigger] name[i])
    &&& forall|i: int|
        0 <= i < split_on(name, '.').len() ==> host_label(#[trigger] split_on(name, '.')[i])
}

/// The host name that a `Host` header holds, if it holds one.
pub open spec fn normalized(host: Seq<char>) -> Option<Seq<char>> {
    if host_name(host_part(host)) {
        Some(host_part(host))
    } else {
        None
    }
}

fn is_host_char(c: char) -> (yes: bool)
    ensures
        yes == host_char(c),
{
    ('a' <= c && c <= 'z') || ('A' <= c && c <= 'Z') || ('0' <= c && c <= '9') || c == '.' || c
        == '-'
}

fn is_host_name(name: &[char]) -> (yes: bool)
    ensures
        yes == host_name(name@),
{
    if name.len() == 0 || name.len() > 253 {
        return false;
    }
    let mut i: usize = 0;
    while i < name.len()
        invariant
            i <= name@.len(),
            forall|k: int| 0 <= k < i ==> host_char(#[trigger] name@[k]),
        decreases name@.len() - i,
    {
        if !is_host_char(name[i]) {
            return false;
        }
        i = i + 1;
    }
    let labels = split(name, '.');
    let ghost all = split_on(name@, '.');
    let mut j: usize = 0;
    while j < labels.len()
        invariant
            j <= labels@.len(),
            views_of(labels@) == all,
            all == split_on(name@, '.'),
            forall|k: int| 0 <= k < j ==> host_label(#[trigger] all[k]),
        decreases labels@.len() - j,
    {
        let label = &labels[j];
        assert(label@ == all[j as int]);
        if label.len() == 0 || label[0] == '-' || label[label.len() - 1] == '-' {
            assert(!host_label(all[j as int]));
            return false;
        }
        j = j + 1;
    }
    true
}

/// The host name that a `Host` header holds.
pub fn normalize_host(host: &str) -> (name: Result<String, ResolveError>)
    ensures
        match name {
            Ok(domain) => normalized(host@) == Some(domain@),
            Err(error) => normalized(host@) is None && error == ResolveError::InvalidHost,
        },
{
    let chars = chars_of(host);
    let inner = trim_trailing(trim(chars.as_slice()), '.');
    let pieces = split(inner, ':');
    assert(views_of(pieces@)[0] == pieces@[0]@);
    let name = to_lower(pieces[0].as_slice());
    if is_host_name(name.as_slice()) {
        Ok(string_of(name.as_slice()))
    } else {
        Err(ResolveError::InvalidHost)
    }
}

// ---------------------------------------------------------------------------
// Parent domains

/// The domains above `domain`, the longest first, as far as they have at least
/// two labels.
pub open spec fn parents_of(domain: Seq<char>) -> Seq<Seq<char>> {
    let labels = split_on(domain, '.');
    Seq::new(
        if labels.len() > 2 {
            (labels.len() - 2) as nat
        } else {
            0
        },
        |i: int| listed(labels.skip(i + 1), '.'),
    )
}

fn join_labels(labels: &Vec<Vec<char>>, from: usize) -> (text: Vec<char>)
    requires
        from < labels@.len(),
    ensures
        text@ == listed(views_of(labels@).skip(from as int), '.'),
{
    let ghost all = views_of(labels@);
    let mut i: usize = labels.len() - 1;
    let mut text: Vec<char> = labels[i].clone();
    assert(text@ =~= labels@[i as int]@);
    assert(all.skip(i as int) =~= seq![labels@[i as int]@]);
    while i > from
        invariant
            from <= i < labels@.len(),
            all == views_of(labels@),
            text@ == listed(all.skip(i as int), '.'),
        decreases i,
    {
        i = i - 1;
        let mut longer: Vec<char> = labels[i].clone();
        assert(longer@ =~= labels@[i as int]@);
        longer.push('.');
        let ghost front = longer@;
        longer.extend_from_slice(text.as_slice());
        proof {
            assert(longer@ =~= front + text@);
            assert(all.skip(i as int)[0] == labels@[i as int]@);
            assert(all.skip(i as int).drop_first() =~= all.skip(i + 1));
        }
        text = longer;
    }
    text
}

/// The domains above `domain`, the longest first.
fn parent_domains(domain: &str) -> (parents: Vec<String>)
    ensures
        string_views(parents@) == parents_of(domain@),
        parents@.len() < usize::MAX,
{
    let chars = chars_of(domain);
    let labels = split(chars.as_slice(), '.');
    let mut parents: Vec<String> = Vec::new();
    let count = labels.len();
    let mut offset: usize = 1;
    while count > 2 && offset < count - 1
        invariant
            count == labels@.len(),
            1 <= offset,
            count > 2 ==> offset <= count - 1,
            count <= 2 ==> offset == 1,
            views_of(labels@) == split_on(domain@, '.'),
            parents@.len() == offset - 1,
            forall|k: int|
                0 <= k < offset - 1 ==> (#[trigger] parents@[k])@ == listed(
                    split_on(domain@, '.').skip(k + 1),
                    '.',
                ),
        decreases count - offset,
    {
        let parent = join_labels(&labels, offset);
        parents.push(string_of(parent.as_slice()));
        offset = offset + 1;
    }
    assert(string_views(parents@) =~= parents_of(domain@));
    parents
}

// ---------------------------------------------------------------------------
// Candidates

/// What a look at a directory for a `site.json` found.
#[derive(Debug)]
pub enum Probe {
    /// There is none.
    Missing,
    /// The disk did not tell.
    Failed(String),
    /// There is one, and it is refused.
    Rejected(ManifestError),
    /// There is one, and it says this.
    Loaded(Manifest),
}

/// What follows from a look at a directory.
pub enum Verdict {
    /// The site there answers.
    Take,
    /// The search goes on.
    Pass,
    /// The search ends with an error.
    Fail,
}

/// What follows from a look at a directory, for a domain itself or, where
/// `require_subdomains` holds, for one below it.
pub open spec fn verdict(probe: Probe, require_subdomains: bool) -> Verdict {
    match probe {
        Probe::Missing => Verdict::Pass,
        Probe::Failed(_) => Verdict::Fail,
        Probe::Rejected(_) => Verdict::Fail,
        Probe::Loaded(manifest) => if require_subdomains && !manifest.domains.subdomains {
            Verdict::Pass
        } else {
            Verdict::Take
        },
    }
}

/// The error of a look at a directory that failed.
pub open spec fn fault(probe: Probe) -> ResolveError {
    match probe {
        Probe::Rejected(error) => ResolveError::Manifest(error),
        _ => ResolveError::Inspection,
    }
}

impl ResolvedSite {
    /// Whether this is the site of the manifest in `directory`, for `domain`.
    pub open spec fn is_site(self, domain: Seq<char>, directory: Seq<u8>, manifest: Manifest) -> bool {
        &&& self.domain@ == domain
        &&& self.manifest_directory@ == directory
        &&& self.directory@ == joined(directory, encode_utf8(manifest.site_root@))
        &&& self.runtime_key@ == directory
        &&& self.manifest == manifest
    }
}

/// The site of the manifest in a directory. Its files lie where `site_root`
/// says, seen from that directory.
pub fn resolved_site(domain: &str, manifest_directory: FilePath, manifest: Manifest) -> (site:
    ResolvedSite)
    ensures
        site.is_site(domain@, manifest_directory@, manifest),
{
    let directory = manifest_directory.join(manifest.site_root.as_str());
    ResolvedSite {
        domain: domain.to_string(),
        runtime_key: manifest_directory.copy(),
        manifest_directory,
        directory,
        manifest,
    }
}

/// The site in a directory, where the manifest there answers for `domain`.
pub fn load_site(domain: &str, directory: FilePath, require_subdomains: bool, probe: Probe) -> (site:
    Result<Option<ResolvedSite>, ResolveError>)
    ensures
        match verdict(probe, require_subdomains) {
            Verdict::Take => site matches Ok(Some(found)) && probe matches Probe::Loaded(manifest)
                && found.is_site(domain@, directory@, manifest),
            Verdict::Pass => site matches Ok(None),
            Verdict::Fail => site == Err::<Option<ResolvedSite>, _>(fault(probe)),
        },
        probe is Missing ==> site matches Ok(None),
        probe is Failed || probe is Rejected ==> site is Err,
        probe matches Probe::Loaded(manifest) ==> if !require_subdomains
            || manifest.domains.subdomains {
            &&& site matches Ok(Some(found))
            &&& found.manifest == manifest
            &&& found.domain@ == domain@
            &&& found.manifest_directory@ == directory@
        } else {
            site matches Ok(None)
        },
{
    match probe {
        Probe::Missing => Ok(None),
        Probe::Failed(_) => Err(ResolveError::Inspection),
        Probe::Rejected(error) => Err(ResolveError::Manifest(error)),
        Probe::Loaded(manifest) => {
            if require_subdomains && !manifest.domains.subdomains {
                return Ok(None);
            }
            Ok(Some(resolved_site(domain, directory, manifest)))
        },
    }
}

/// The directory that is looked at in the `index`-th place for `domain`: that
/// of the domain itself first, then those of the domains above it.
pub open spec fn candidate(root: Seq<u8>, domain: Seq<char>, index: int) -> Seq<u8> {
    if index == 0 {
        joined(root, encode_utf8(domain))
    } else {
        joined(root, encode_utf8(parents_of(domain)[index - 1]))
    }
}

/// A search for the site of a host name.
#[derive(Debug)]
pub struct Resolution {
    root: FilePath,
    domain: String,
    parents: Vec<String>,
    tried: usize,
}

/// Where a search looks next.
#[derive(Debug)]
pub enum Lookup {
    /// For a manifest in a directory.
    Directory {
        /// The directory.
        directory: FilePath,
        /// Whether the manifest must answer for the domains below its own.
        require_subdomains: bool,
    },
    /// At the aliases in every manifest below the root.
    Aliases,
}

/// How a search goes on.
#[derive(Debug)]
pub enum ResolveStep {
    /// It looks elsewhere.
    Continue(Resolution),
    /// It has found the site.
    Found(ResolvedSite),
    /// It ends with an error.
    Failed(ResolveError),
}

/// Starts the search for the site of the host name in a `Host` header.
pub fn resolve(root: &FilePath, host: &str) -> (search: Result<Resolution, ResolveError>)
    ensures
        match search {
            Ok(resolution) => resolution.root() == root@ && normalized(host@) == Some(
                resolution.domain(),
            ) && resolution.tried() == 0,
            Err(error) => normalized(host@) is None && error == ResolveError::InvalidHost,
        },
{
    match normalize_host(host) {
        Ok(domain) => {
            let parents = parent_domains(domain.as_str());
            Ok(Resolution { root: root.copy(), domain, parents, tried: 0 })
        },
        Err(error) => Err(error),
    }
}

impl Resolution {
    /// The directory of the sites.
    pub closed spec fn root(self) -> Seq<u8> {
        self.root@
    }

    /// The host name.
    pub closed spec fn domain(self) -> Seq<char> {
        self.domain@
    }

    /// The number of directories that were looked at.
    pub closed spec fn tried(self) -> nat {
        self.tried as nat
    }

    #[verifier::type_invariant]
    spec fn knows_its_parents(self) -> bool {
        &&& string_views(self.parents@) == parents_of(self.domain@)
        &&& self.tried <= self.parents@.len() + 1
        &&& self.parents@.len() < usize::MAX
    }

    /// Where the search looks next: at the domain itself, then at the domains
    /// above it, then at the aliases.
    pub fn next(&self) -> (lookup: Lookup)
        ensures
            match lookup {
                Lookup::Directory { directory, require_subdomains } => self.tried() <= parents_of(
                    self.domain(),
                ).len() && directory@ == candidate(self.root(), self.domain(), self.tried() as int)
                    && require_subdomains == (self.tried() > 0),
                Lookup::Aliases => self.tried() == parents_of(self.domain()).len() + 1,
            },
    {
        proof {
            use_type_invariant(self);
            assert(parents_of(self.domain@).len() == self.parents@.len());
        }
        if self.tried == 0 {
            let directory = self.root.join(self.domain.as_str());
            Lookup::Directory { directory, require_subdomains: false }
        } else if self.tried <= self.parents.len() {
            assert(string_views(self.parents@)[self.tried - 1] == self.parents@[self.tried - 1]@);
            let directory = self.root.join(self.parents[self.tried - 1].as_str());
            Lookup::Directory { directory, require_subdomains: true }
        } else {
            Lookup::Aliases
        }
    }

    /// Goes on after the look at the directory that `next` names. A search that
    /// has no directory left stays as it is.
    pub fn inspected(self, probe: Probe) -> (step: ResolveStep)
        ensures
            self.tried() > parents_of(self.domain()).len() ==> step == ResolveStep::Continue(self),
            self.tried() <= parents_of(self.domain()).len() ==> match verdict(
                probe,
                self.tried() > 0,
            ) {
                Verdict::Take => step matches ResolveStep::Found(site)
                    && probe matches Probe::Loaded(manifest) && site.is_site(
                    self.domain(),
                    candidate(self.root(), self.domain(), self.tried() as int),
                    manifest,
                ),
                Verdict::Pass => step matches ResolveStep::Continue(rest) && rest.root()
                    == self.root() && rest.domain() == self.domain() && rest.tried()
                    == self.tried() + 1,
                Verdict::Fail => step == ResolveStep::Failed(fault(probe)),
            },
    {
        proof {
            use_type_invariant(&self);
            assert(parents_of(self.domain@).len() == self.parents@.len());
        }
        match self.next() {
            Lookup::Directory { directory, require_subdomains } => {
                match load_site(self.domain.as_str(), directory, require_subdomains, probe) {
                    Ok(Some(site)) => ResolveStep::Found(site),
                    Ok(None) => ResolveStep::Continue(
                        Resolution {
                            root: self.root,
                            domain: self.domain,
                            parents: self.parents,
                            tried: self.tried + 1,
                        },
                    ),
                    Err(error) => ResolveStep::Failed(error),
                }
            },
            Lookup::Aliases => ResolveStep::Continue(self),
        }
    }

    /// Goes on after the walk over the directory of the sites came to `event`.
    pub fn scanned(&self, event: ScanEvent) -> (step: ScanStep)
        ensures
            scan_step(self.domain(), event, step),
    {
        resolve_alias(self.domain.as_str(), event)
    }
}

// ---------------------------------------------------------------------------
// Aliases

/// What a walk over the directory of the sites came to.
#[derive(Debug)]
pub enum ScanEvent {
    /// There is no such directory.
    NoDirectory,
    /// The walk failed.
    Failed(String),
    /// An entry that is not a directory.
    Other,
    /// A directory, and what a look for a manifest in it found.
    Site {
        /// The directory.
        directory: FilePath,
        /// What was found in it.
        probe: Probe,
    },
    /// There are no more entries.
    End,
}

/// How a walk over the directory of the sites goes on.
#[derive(Debug)]
pub enum ScanStep {
    /// With the next entry.
    Continue,
    /// No site answers for the host name.
    NotFound,
    /// It has found the site.
    Found(ResolvedSite),
    /// It ends with an error.
    Failed(ResolveError),
}

/// Whether one of the aliases of a manifest is `domain`, in any case and with
/// or without final dots.
pub open spec fn answers_as_alias(manifest: Manifest, domain: Seq<char>) -> bool {
    exists|i: int|
        0 <= i < manifest.domains.aliases@.len() && same_but_case(
            without_trailing((#[trigger] manifest.domains.aliases@[i])@, '.'),
            domain,
        )
}

/// How the walk for `domain` goes on after `event`.
pub open spec fn scan_step(domain: Seq<char>, event: ScanEvent, step: ScanStep) -> bool {
    match event {
        ScanEvent::NoDirectory => step == ScanStep::NotFound,
        ScanEvent::Failed(message) => step == ScanStep::Failed(ResolveError::Scan(message)),
        ScanEvent::Other => step == ScanStep::Continue,
        ScanEvent::End => step == ScanStep::NotFound,
        ScanEvent::Site { directory, probe } => match probe {
            Probe::Missing => step == ScanStep::Continue,
            Probe::Rejected(_) => step == ScanStep::Continue,
            Probe::Failed(message) => step == ScanStep::Failed(ResolveError::Scan(message)),
            Probe::Loaded(manifest) => if answers_as_alias(manifest, domain) {
                step matches ScanStep::Found(site) && site.is_site(domain, directory@, manifest)
            } else {
                step == ScanStep::Continue
            },
        },
    }
}

fn has_alias(manifest: &Manifest, domain: &str) -> (yes: bool)
    ensures
        yes == answers_as_alias(*manifest, domain@),
{
    let name = chars_of(domain);
    let aliases = &manifest.domains.aliases;
    let mut i: usize = 0;
    while i < aliases.len()
        invariant
            i <= aliases@.len(),
            aliases@ == manifest.domains.aliases@,
            name@ == domain@,
            forall|k: int|
                0 <= k < i ==> !same_but_case(
                    without_trailing((#[trigger] manifest.domains.aliases@[k])@, '.'),
                    domain@,
                ),
        decreases aliases@.len() - i,
    {
        let alias = chars_of(aliases[i].as_str());
        if same_ignoring_case(trim_trailing(alias.as_slice(), '.'), name.as_slice()) {
            assert(same_but_case(
                without_trailing(manifest.domains.aliases@[i as int]@, '.'),
                domain@,
            ));
            return true;
        }
        i = i + 1;
    }
    false
}

/// How the walk over the directory of the sites goes on: to the first manifest
/// that has the host name among its aliases. One that is refused is passed
/// over.
pub fn resolve_alias(domain: &str, event: ScanEvent) -> (step: ScanStep)
    ensures
        scan_step(domain@, event, step),
{
    match event {
        ScanEvent::NoDirectory => ScanStep::NotFound,
        ScanEvent::Failed(message) => ScanStep::Failed(ResolveError::Scan(message)),
        ScanEvent::Other => ScanStep::Continue,
        ScanEvent::End => ScanStep::NotFound,
        ScanEvent::Site { directory, probe } => match probe {
            Probe::Missing => ScanStep::Continue,
            Probe::Rejected(_) => ScanStep::Continue,
            Probe::Failed(message) => ScanStep::Failed(ResolveError::Scan(message)),
            Probe::Loaded(manifest) => {
                if has_alias(&manifest, domain) {
                    ScanStep::Found(resolved_site(domain, directory, manifest))
                } else {
                    ScanStep::Continue
                }
            },
        },
    }
}

// ---------------------------------------------------------------------------
// Laws

/// The place at which a search ends, where `probes` are what the looks at the
/// candidates find, in their order, and the first `from` of them were passed.
pub open spec fn search_ends(probes: Seq<Probe>, from: nat) -> Option<nat>
    decreases probes.len() - from,
{
    if from >= probes.len() {
        None
    } else if verdict(probes[from as int], from > 0) is Pass {
        search_ends(probes, from + 1)
    } else {
        Some(from)
    }
}

/// A search ends at the first candidate that is not passed.
pub proof fn law_search_ends_at_first(probes: Seq<Probe>, from: nat)
    requires
        from <= probes.len(),
    ensures
        match search_ends(probes, from) {
            Some(k) => from <= k < probes.len() && !(verdict(probes[k as int], k > 0) is Pass)
                && forall|j: int|
                from <= j < k ==> verdict(#[trigger] probes[j], j > 0) is Pass,
            None => forall|j: int|
                from <= j < probes.len() ==> verdict(#[trigger] probes[j], j > 0) is Pass,
        },
    decreases probes.len() - from,
{
    if from < probes.len() && verdict(probes[from as int], from > 0) is Pass {
        law_search_ends_at_first(probes, from + 1);
    }
}

/// The directory of the domain itself takes precedence: where it has a
/// manifest, no other directory is looked at, and the manifest need not answer
/// for subdomains.
pub proof fn law_exact_domain_first(probes: Seq<Probe>)
    requires
        probes.len() > 0,
        probes[0] is Loaded,
    ensures
        search_ends(probes, 0) == Some(0nat),
        verdict(probes[0], false) is Take,
{
}

/// A manifest of a parent domain that does not answer for subdomains is passed.
pub proof fn law_parent_must_answer_for_subdomains(manifest: Manifest)
    requires
        !manifest.domains.subdomains,
    ensures
        verdict(Probe::Loaded(manifest), true) is Pass,
{
}

/// Splitting a host name and putting the labels together again gives the name.
pub proof fn law_labels_make_the_name(name: Seq<char>)
    ensures
        listed(split_on(name, '.'), '.') == name,
    decreases name.len(),
{
    lemma_position(name, '.');
    let at = position(name, '.') as int;
    if at < name.len() {
        let rest = name.skip(at + 1);
        law_labels_make_the_name(rest);
        let labels = split_on(name, '.');
        crate::text::lemma_split_not_empty(rest, '.');
        assert(labels.drop_first() =~= split_on(rest, '.'));
        assert(name.take(at).push('.') + rest =~= name);
    }
}

proof fn lemma_pieces_lack_mark(text: Seq<char>, mark: char)
    ensures
        forall|i: int, k: int|
            0 <= i < split_on(text, mark).len() && 0 <= k < split_on(text, mark)[i].len()
                ==> #[trigger] split_on(text, mark)[i][k] != mark,
    decreases text.len(),
{
    lemma_position(text, mark);
    let at = position(text, mark) as int;
    let pieces = split_on(text, mark);
    if at < text.len() {
        let rest = text.skip(at + 1);
        lemma_pieces_lack_mark(rest, mark);
        let more = split_on(rest, mark);
        assert forall|i: int, k: int|
            0 <= i < pieces.len() && 0 <= k < pieces[i].len() implies #[trigger] pieces[i][k]
            != mark by {
            if i > 0 {
                assert(pieces[i] == more[i - 1]);
                assert(more[i - 1][k] != mark);
            } else {
                assert(pieces[0] == text.take(at));
            }
        }
    } else {
        assert(pieces =~= seq![text]);
    }
}

/// Every parent of a domain is what stands behind one of its dots, and has a
/// dot itself: a bare top-level label never answers for a domain below it.
pub proof fn law_parents_are_proper(domain: Seq<char>, index: int)
    requires
        0 <= index < parents_of(domain).len(),
    ensures
        parents_of(domain)[index].len() < domain.len(),
        parents_of(domain)[index].is_suffix_of(domain),
        domain[domain.len() - parents_of(domain)[index].len() - 1] == '.',
        split_on(parents_of(domain)[index], '.') == split_on(domain, '.').skip(index + 1),
        split_on(parents_of(domain)[index], '.').len() >= 2,
{
    let labels = split_on(domain, '.');
    law_labels_make_the_name(domain);
    lemma_listed_suffix(labels, index + 1);
    lemma_pieces_lack_mark(domain, '.');
    let rest = labels.skip(index + 1);
    assert forall|i: int, k: int| 0 <= i < rest.len() && 0 <= k < rest[i].len() implies #[trigger] rest[i][k]
        != '.' by {
        assert(rest[i] == labels[i + index + 1]);
        assert(labels[i + index + 1][k] != '.');
    }
    lemma_split_listed(rest, '.');
}

/// The longer of two parents of a domain is looked at first.
pub proof fn law_longer_parents_first(domain: Seq<char>, a: int, b: int)
    requires
        0 <= a < b < parents_of(domain).len(),
    ensures
        parents_of(domain)[a].len() > parents_of(domain)[b].len(),
        parents_of(domain)[b].is_suffix_of(parents_of(domain)[a]),
{
    let labels = split_on(domain, '.');
    let longer = labels.skip(a + 1);
    lemma_listed_suffix(longer, b - a);
    assert(longer.skip(b - a) =~= labels.skip(b + 1));
}

proof fn lemma_listed_suffix(labels: Seq<Seq<char>>, from: int)
    requires
        0 < from < labels.len(),
    ensures
        listed(labels.skip(from), '.').len() < listed(labels, '.').len(),
        listed(labels.skip(from), '.').is_suffix_of(listed(labels, '.')),
        listed(labels, '.')[listed(labels, '.').len() - listed(labels.skip(from), '.').len() - 1] == '.',
    decreases from,
{
    let rest = labels.drop_first();
    let whole = listed(labels, '.');
    let tail = listed(labels.skip(from), '.');
    assert(whole == labels[0].push('.') + listed(rest, '.'));
    if from == 1 {
        assert(labels.skip(1) =~= rest);
        assert(whole.subrange((whole.len() - tail.len()) as int, whole.len() as int) =~= tail);
    } else {
        assert(rest.skip(from - 1) =~= labels.skip(from));
        lemma_listed_suffix(rest, from - 1);
        let inner = listed(rest, '.');
        assert(tail =~= inner.subrange((inner.len() - tail.len()) as int, inner.len() as int));
        assert(whole.subrange((whole.len() - tail.len()) as int, whole.len() as int) =~= tail);
        assert(whole[whole.len() - tail.len() - 1] == inner[inner.len() - tail.len() - 1]);
    }
}

/// A host name that was taken once is taken again as it is.
pub proof fn law_normalizing_twice(host: Seq<char>)
    requires
        normalized(host) is Some,
    ensures
        normalized(normalized(host)->Some_0) == normalized(host),
{
    let name = host_part(host);
    lemma_host_name_is_trimmed(name);
    assert(name[0] != ':' && name[0] != '.');
    lemma_position_is(name, ':', name.len() as int);
    assert(split_on(name, ':') =~= seq![name]);
    crate::headers::lemma_lower_twice(
        split_on(without_trailing(trimmed(host), '.'), ':')[0],
    );
    assert(lower(name) == name);
}

proof fn lemma_host_name_is_trimmed(name: Seq<char>)
    requires
        host_name(name),
    ensures
        trimmed(name) == name,
        without_trailing(name, '.') == name,
        forall|k: int| 0 <= k < name.len() ==> name[k] != ':',
        name[0] != '.',
{
    let labels = split_on(name, '.');
    law_labels_make_the_name(name);
    crate::text::lemma_split_not_empty(name, '.');
    assert(host_label(labels[labels.len() - 1]));
    assert(host_label(labels[0]));
    lemma_pieces_lack_mark(name, '.');
    lemma_listed_ends(labels);
    assert(labels[0][0] != '.');
    let n = labels.len() - 1;
    assert(labels[n][labels[n].len() - 1] != '.');
    assert(host_char(name[0]));
    assert(host_char(name[name.len() - 1]));
}

proof fn lemma_listed_ends(labels: Seq<Seq<char>>)
    requires
        labels.len() > 0,
        labels[0].len() > 0,
        labels.last().len() > 0,
    ensures
        listed(labels, '.').len() > 0,
        listed(labels, '.')[0] == labels[0][0],
        listed(labels, '.').last() == labels.last().last(),
    decreases labels.len(),
{
    if labels.len() > 1 {
        let rest = labels.drop_first();
        if rest[0].len() > 0 {
            lemma_listed_ends(rest);
        } else {
            lemma_listed_last(rest);
        }
    }
}

proof fn lemma_listed_last(labels: Seq<Seq<char>>)
    requires
        labels.len() > 0,
        labels.last().len() > 0,
    ensures
        listed(labels, '.').len() > 0,
        listed(labels, '.').last() == labels.last().last(),
    decreases labels.len(),
{
    if labels.len() > 1 {
        lemma_listed_last(labels.drop_first());
    }
}

/// The text in front of the `index`-th candidate for a domain: the domain
/// itself, or one above it.
pub open spec fn candidate_name(domain: Seq<char>, index: int) -> Seq<char> {
    if index == 0 {
        domain
    } else {
        parents_of(domain)[index - 1]
    }
}

/// Every directory that is looked at lies directly below the root: no `Host`
/// header leads elsewhere.
pub proof fn law_candidates_are_entries_of_root(root: Seq<u8>, domain: Seq<char>, index: int)
    requires
        host_name(domain),
        0 <= index <= parents_of(domain).len(),
    ensures
        candidate(root, domain, index) == joined(root, encode_utf8(candidate_name(domain, index))),
        components(candidate(root, domain, index)) == components(root).push(
            encode_utf8(candidate_name(domain, index)),
        ),
        is_name(encode_utf8(candidate_name(domain, index))),
{
    let text = candidate_name(domain, index);
    let name = encode_utf8(text);
    let labels = split_on(domain, '.');
    if index > 0 {
        law_parents_are_proper(domain, index - 1);
        assert(split_on(text, '.')[0] == labels[index]);
        assert(host_label(labels[index]));
    } else {
        crate::text::lemma_split_not_empty(domain, '.');
        assert(host_label(labels[0]));
    }
    assert(split_on(text, '.')[0].len() > 0);
    lemma_position(text, '.');
    assert(text.len() > 0 && text[0] != '.');
    let offset = domain.len() - text.len();
    assert forall|i: int| 0 <= i < text.len() implies host_char(#[trigger] text[i]) by {
        assert(text[i] == domain[offset + i]);
        assert(host_char(domain[offset + i]));
    }
    is_ascii_chars_encode_utf8(text);
    assert forall|i: int| 0 <= i < name.len() implies #[trigger] name[i] != SEPARATOR && (i == 0
        ==> name[i] != DOT) by {
        assert(text[i] as u8 == name[i]);
        assert(host_char(text[i]));
    }
    assert(name[0] != SEPARATOR && name[0] != DOT);
    lemma_name_is_one_component(name);
    law_join_appends(root, name);
    assert(components(root) + seq![name] =~= components(root).push(name));
}

/// A loaded manifest of a parent domain is taken if and only if it says that it
/// answers for subdomains, and passed over if and only if it says that it does
/// not. That of the domain itself is always taken. Whatever else the manifests
/// say is of no account.
pub proof fn law_loaded_manifest(manifest: Manifest)
    ensures
        verdict(Probe::Loaded(manifest), true) is Take <==> manifest.domains.subdomains,
        verdict(Probe::Loaded(manifest), true) is Pass <==> !manifest.domains.subdomains,
        verdict(Probe::Loaded(manifest), false) is Take,
{
}

/// Two manifests that say the same of subdomains are treated the same.
pub proof fn law_only_subdomains_matter(a: Manifest, b: Manifest, require_subdomains: bool)
    requires
        a.domains.subdomains == b.domains.subdomains,
    ensures
        verdict(Probe::Loaded(a), require_subdomains) == verdict(
            Probe::Loaded(b),
            require_subdomains,
        ),
{
}

/// A directory without a manifest is passed over. One that could not be looked
/// at, or whose manifest is refused, ends the search with that error, for the
/// domain itself and for a parent.
pub proof fn law_no_manifest(message: String, error: ManifestError, require_subdomains: bool)
    ensures
        verdict(Probe::Missing, require_subdomains) is Pass,
        verdict(Probe::Failed(message), require_subdomains) is Fail,
        fault(Probe::Failed(message)) is Inspection,
        verdict(Probe::Rejected(error), require_subdomains) is Fail,
        fault(Probe::Rejected(error)) == ResolveError::Manifest(error),
{
}

/// Whether the `index`-th directory that is looked at has a manifest that
/// answers: any for the domain itself, one that answers for subdomains for a
/// parent.
pub open spec fn answers_at(probes: Seq<Probe>, index: int) -> bool {
    probes[index] matches Probe::Loaded(manifest) && (index == 0 || manifest.domains.subdomains)
}

/// Where every manifest can be read, a search ends at the first that answers,
/// and goes on to the aliases only where there is none.
pub proof fn law_first_answer_is_taken(probes: Seq<Probe>)
    requires
        forall|k: int|
            0 <= k < probes.len() ==> (#[trigger] probes[k] is Missing || probes[k] is Loaded),
    ensures
        match search_ends(probes, 0) {
            Some(k) => k < probes.len() && answers_at(probes, k as int) && forall|j: int|
                0 <= j < k ==> !#[trigger] answers_at(probes, j),
            None => forall|j: int| 0 <= j < probes.len() ==> !#[trigger] answers_at(probes, j),
        },
{
    law_search_ends_at_first(probes, 0);
    assert forall|j: int| 0 <= j < probes.len() implies (verdict(#[trigger] probes[j], j > 0) is Pass
        <==> !answers_at(probes, j)) by {
        assert(probes[j] is Missing || probes[j] is Loaded);
    }
    if let Some(k) = search_ends(probes, 0) {
        assert(verdict(probes[k as int], k as int > 0) is Pass <==> !answers_at(probes, k as int));
    }
}

/// A dot in a host name stands between two characters that are neither a dot
/// nor a hyphen.
pub open spec fn dot_is_inside(name: Seq<char>, i: int) -> bool {
    name[i] == '.' ==> {
        &&& 0 < i < name.len() - 1
        &&& name[i - 1] != '.' && name[i - 1] != '-'
        &&& name[i + 1] != '.' && name[i + 1] != '-'
    }
}

/// A text without a dot or a hyphen at either end, or beside a dot.
pub open spec fn well_dotted(name: Seq<char>) -> bool {
    &&& name.len() > 0
    &&& name[0] != '.' && name[0] != '-'
    &&& name.last() != '.' && name.last() != '-'
    &&& forall|i: int| 0 <= i < name.len() ==> #[trigger] dot_is_inside(name, i)
}

proof fn lemma_well_dotted(name: Seq<char>)
    ensures
        well_dotted(name) <==> forall|i: int|
            0 <= i < split_on(name, '.').len() ==> host_label(#[trigger] split_on(name, '.')[i]),
    decreases name.len(),
{
    lemma_position(name, '.');
    let at = position(name, '.') as int;
    let labels = split_on(name, '.');
    if at >= name.len() {
        assert(labels[0] == name);
        assert forall|i: int| 0 <= i < name.len() implies #[trigger] dot_is_inside(name, i) by {
            assert(name[i] != '.');
        }
        if well_dotted(name) {
            assert(host_label(labels[0]));
        }
        if host_label(labels[0]) {
            assert(name[0] != '.');
            assert(name[name.len() - 1] != '.');
        }
    } else {
        let first = name.take(at);
        let rest = name.skip(at + 1);
        let more = split_on(rest, '.');
        lemma_well_dotted(rest);
        assert(labels == seq![first] + more);
        assert(labels[0] == first);
        assert forall|i: int| 0 <= i < more.len() implies labels[i + 1] == #[trigger] more[i] by {}
        if well_dotted(name) {
            assert(dot_is_inside(name, at));
            assert(first[at - 1] == name[at - 1]);
            assert(first[0] == name[0]);
            assert(rest[0] == name[at + 1]);
            assert(rest.last() == name.last());
            assert forall|i: int| 0 <= i < rest.len() implies #[trigger] dot_is_inside(rest, i) by {
                assert(dot_is_inside(name, i + at + 1));
                assert(rest[i] == name[i + at + 1]);
                if i > 0 {
                    assert(rest[i - 1] == name[i + at]);
                }
                if i + 1 < rest.len() {
                    assert(rest[i + 1] == name[i + at + 2]);
                }
            }
            assert(well_dotted(rest));
            assert forall|i: int| 0 <= i < labels.len() implies host_label(#[trigger] labels[i]) by {
                if i > 0 {
                    assert(labels[i] == more[i - 1]);
                }
            }
        }
        if forall|i: int| 0 <= i < labels.len() ==> host_label(#[trigger] labels[i]) {
            assert(host_label(labels[0]));
            assert forall|i: int| 0 <= i < more.len() implies host_label(#[trigger] more[i]) by {
                assert(host_label(labels[i + 1]));
            }
            assert(well_dotted(rest));
            assert(name[0] == first[0]);
            assert(name.last() == rest.last());
            assert forall|i: int| 0 <= i < name.len() implies #[trigger] dot_is_inside(name, i) by {
                if i < at {
                    assert(name[i] != '.');
                } else if i == at {
                    assert(first.last() == name[at - 1]);
                    assert(name[at - 1] != '.');
                    assert(rest[0] == name[at + 1]);
                } else {
                    let k = i - at - 1;
                    assert(dot_is_inside(rest, k));
                    assert(rest[k] == name[i]);
                    if rest[k] == '.' {
                        assert(rest[k - 1] == name[i - 1]);
                        assert(rest[k + 1] == name[i + 1]);
                    }
                }
            }
        }
    }
}

/// A host name is made of 1 to 253 letters, digits, dots and hyphens, with no
/// dot and no hyphen at either end or beside a dot; and all such texts are host
/// names.
pub proof fn law_host_names(name: Seq<char>)
    ensures
        host_name(name) <==> {
            &&& 1 <= name.len() <= 253
            &&& well_dotted(name)
            &&& forall|i: int|
                0 <= i < name.len() ==> {
                    ||| 'a' <= #[trigger] name[i] <= 'z'
                    ||| 'A' <= name[i] <= 'Z'
                    ||| '0' <= name[i] <= '9'
                    ||| name[i] == '.'
                    ||| name[i] == '-'
                }
        },
{
    lemma_well_dotted(name);
    if host_name(name) {
        assert forall|i: int| 0 <= i < name.len() implies ({
            ||| 'a' <= #[trigger] name[i] <= 'z'
            ||| 'A' <= name[i] <= 'Z'
            ||| '0' <= name[i] <= '9'
            ||| name[i] == '.'
            ||| name[i] == '-'
        }) by {
            assert(host_char(name[i]));
        }
    }
}

proof fn lemma_host_is_first_piece(inner: Seq<char>, name: Seq<char>, rest: Seq<char>)
    requires
        inner == name + rest,
        rest.len() == 0 || rest[0] == ':',
        forall|k: int| 0 <= k < name.len() ==> #[trigger] name[k] != ':',
    ensures
        split_on(inner, ':')[0] == name,
{
    let at = name.len() as int;
    assert forall|k: int| 0 <= k < at implies inner[k] != ':' by {
        assert(inner[k] == name[k]);
    }
    if rest.len() > 0 {
        assert(inner[at] == rest[0]);
    }
    lemma_position_is(inner, ':', at);
    assert(inner.take(at) =~= name);
    if rest.len() == 0 {
        assert(inner =~= name);
    }
}

/// What stands in a `Host` header between white space, before any final dots,
/// is taken in lower case where it is a host name, and refused where it is not.
pub proof fn law_host_without_port(
    front: Seq<char>,
    name: Seq<char>,
    dots: nat,
    back: Seq<char>,
)
    requires
        forall|k: int| 0 <= k < front.len() ==> white_space(#[trigger] front[k]),
        forall|k: int| 0 <= k < back.len() ==> white_space(#[trigger] back[k]),
        name.len() > 0,
        !white_space(name[0]) && !white_space(name.last()) && name.last() != '.',
        forall|k: int| 0 <= k < name.len() ==> #[trigger] name[k] != ':',
    ensures
        normalized(front + (name + Seq::new(dots, |i: int| '.')) + back) == if host_name(
            lower(name),
        ) {
            Some(lower(name))
        } else {
            None
        },
{
    let run = Seq::new(dots, |i: int| '.');
    let inner = name + run;
    assert(inner[0] == name[0]);
    if dots > 0 {
        assert(inner.last() == '.');
        assert(!white_space(inner.last()));
    } else {
        assert(inner =~= name);
    }
    law_trimmed(front, inner, back);
    law_marks_are_taken_off(name, dots, '.');
    lemma_host_is_first_piece(name, name, Seq::empty());
}

/// What stands before the first colon of a `Host` header is taken in the same
/// way, whatever stands behind the colon.
pub proof fn law_host_with_port(
    front: Seq<char>,
    name: Seq<char>,
    port: Seq<char>,
    back: Seq<char>,
)
    requires
        forall|k: int| 0 <= k < front.len() ==> white_space(#[trigger] front[k]),
        forall|k: int| 0 <= k < back.len() ==> white_space(#[trigger] back[k]),
        name.len() > 0 ==> !white_space(name[0]),
        port.len() > 0 ==> !white_space(port.last()),
        forall|k: int| 0 <= k < name.len() ==> #[trigger] name[k] != ':',
    ensures
        normalized(front + (name.push(':') + port) + back) == if host_name(lower(name)) {
            Some(lower(name))
        } else {
            None
        },
{
    let inner = name.push(':') + port;
    if name.len() > 0 {
        assert(inner[0] == name[0]);
    } else {
        assert(inner[0] == ':');
    }
    if port.len() > 0 {
        assert(inner.last() == port.last());
    } else {
        assert(inner.last() == ':');
    }
    law_trimmed(front, inner, back);
    let short = without_trailing(inner, '.');
    lemma_marks_leave_front(inner, name.len() as int);
    let rest = short.skip(name.len() as int);
    assert(short =~= name + rest);
    assert(rest[0] == ':');
    lemma_host_is_first_piece(short, name, rest);
}

proof fn lemma_marks_leave_front(text: Seq<char>, at: int)
    requires
        0 <= at < text.len(),
        text[at] != '.',
    ensures
        without_trailing(text, '.').len() > at,
        without_trailing(text, '.').is_prefix_of(text),
        without_trailing(text, '.').take(at) == text.take(at),
        without_trailing(text, '.')[at] == text[at],
    decreases text.len(),
{
    let short = without_trailing(text, '.');
    if text.last() == '.' {
        let less = text.drop_last();
        assert(at < less.len());
        lemma_marks_leave_front(less, at);
        assert(short == without_trailing(less, '.'));
        assert(less.take(at) =~= text.take(at));
        assert(short =~= less.subrange(0, short.len() as int));
        assert(short =~= text.subrange(0, short.len() as int));
    } else {
        assert(short == text);
        assert(short =~= text.subrange(0, short.len() as int));
    }
}

/// The parents of a domain are what stands behind its first dot, and the parents
/// of that, as long as there is a dot in it.
pub proof fn law_parents_one_by_one(label: Seq<char>, parent: Seq<char>)
    requires
        forall|k: int| 0 <= k < label.len() ==> #[trigger] label[k] != '.',
    ensures
        parents_of(label).len() == 0,
        (exists|k: int| 0 <= k < parent.len() && #[trigger] parent[k] == '.') ==> parents_of(
            label.push('.') + parent,
        ) == seq![parent] + parents_of(parent),
        (forall|k: int| 0 <= k < parent.len() ==> #[trigger] parent[k] != '.') ==> parents_of(
            label.push('.') + parent,
        ).len() == 0,
{
    let domain = label.push('.') + parent;
    let more = split_on(parent, '.');
    let labels = split_on(domain, '.');
    lemma_position_is(label, '.', label.len() as int);
    assert(split_on(label, '.') =~= seq![label]);
    lemma_split_joined(label, parent, '.');
    assert(labels =~= seq![label] + more);
    lemma_position(parent, '.');
    let at = position(parent, '.') as int;
    if at < parent.len() {
        crate::text::lemma_split_not_empty(parent.skip(at + 1), '.');
        assert(more.len() >= 2);
        law_labels_make_the_name(parent);
        assert(labels.skip(1) =~= more);
        let expected = seq![parent] + parents_of(parent);
        assert forall|i: int| 0 <= i < expected.len() implies parents_of(domain)[i]
            == expected[i] by {
            if i > 0 {
                assert(labels.skip(i + 1) =~= more.skip(i));
                assert(expected[i] == parents_of(parent)[i - 1]);
            }
        }
        assert(parents_of(domain) =~= expected);
    }
}

/// A manifest answers for a domain that is one of its aliases, in letters of
/// either case, with or without final dots behind the alias.
pub proof fn law_alias_answers(
    manifest: Manifest,
    index: int,
    name: Seq<char>,
    dots: nat,
    domain: Seq<char>,
)
    requires
        0 <= index < manifest.domains.aliases@.len(),
        manifest.domains.aliases@[index]@ == name + Seq::new(dots, |i: int| '.'),
        name.len() == 0 || name.last() != '.',
        same_but_case(name, domain),
    ensures
        answers_as_alias(manifest, domain),
{
    law_marks_are_taken_off(name, dots, '.');
    assert(same_but_case(without_trailing(manifest.domains.aliases@[index]@, '.'), domain));
}

/// A manifest answers for no domain that is none of its aliases.
pub proof fn law_only_aliases_answer(manifest: Manifest, domain: Seq<char>)
    requires
        answers_as_alias(manifest, domain),
    ensures
        exists|i: int, n: int|
            0 <= i < manifest.domains.aliases@.len() && 0 <= n
                <= manifest.domains.aliases@[i]@.len() && same_but_case(
                #[trigger] manifest.domains.aliases@[i]@.take(n),
                domain,
            ) && forall|k: int|
                n <= k < manifest.domains.aliases@[i]@.len()
                    ==> #[trigger] manifest.domains.aliases@[i]@[k] == '.',
{
    let i = choose|i: int|
        0 <= i < manifest.domains.aliases@.len() && same_but_case(
            without_trailing((#[trigger] manifest.domains.aliases@[i])@, '.'),
            domain,
        );
    let alias = manifest.domains.aliases@[i]@;
    let n = lemma_marks_were_there(alias);
    assert(same_but_case(alias.take(n), domain));
}

proof fn lemma_marks_were_there(text: Seq<char>) -> (n: int)
    ensures
        0 <= n <= text.len(),
        without_trailing(text, '.') == text.take(n),
        forall|k: int| n <= k < text.len() ==> #[trigger] text[k] == '.',
    decreases text.len(),
{
    if text.len() > 0 && text.last() == '.' {
        let less = text.drop_last();
        let n = lemma_marks_were_there(less);
        assert(less.take(n) =~= text.take(n));
        assert forall|k: int| n <= k < text.len() implies #[trigger] text[k] == '.' by {
            if k < less.len() {
                assert(less[k] == text[k]);
            }
        }
        n
    } else {
        assert(text.take(text.len() as int) =~= text);
        text.len() as int
    }
}

/// The walk over the directories ends with the site of a manifest that answers,
/// or with the error of a directory that could not be looked at. It passes over
/// everything else, a refused manifest too, and finds nothing where it comes to
/// its end.
pub proof fn law_walk(
    domain: Seq<char>,
    directory: FilePath,
    probe: Probe,
    message: String,
    event: ScanEvent,
    step: ScanStep,
)
    requires
        scan_step(domain, event, step),
    ensures
        event is Other ==> step is Continue,
        event is NoDirectory || event is End ==> step is NotFound,
        event == ScanEvent::Failed(message) ==> step == ScanStep::Failed(
            ResolveError::Scan(message),
        ),
        event == (ScanEvent::Site { directory, probe }) ==> {
            &&& step is Found <==> (probe matches Probe::Loaded(manifest) && answers_as_alias(
                manifest,
                domain,
            ))
            &&& probe == Probe::Failed(message) ==> step == ScanStep::Failed(
                ResolveError::Scan(message),
            )
            &&& step is Failed ==> probe is Failed
            &&& step is NotFound ==> false
            &&& step matches ScanStep::Found(site) ==> {
                &&& probe == Probe::Loaded(site.manifest)
                &&& site.domain@ == domain
                &&& site.manifest_directory@ == directory@
                &&& site.runtime_key@ == directory@
            }
        },
{
}

/// A site keeps the domain that was asked for and what its manifest says. It is
/// known by the directory of the manifest, and its files lie where `site_root`
/// leads from there.
pub proof fn law_site_of_manifest(
    site: ResolvedSite,
    domain: Seq<char>,
    directory: Seq<u8>,
    manifest: Manifest,
)
    requires
        site.is_site(domain, directory, manifest),
    ensures
        site.domain@ == domain,
        site.manifest == manifest,
        site.manifest_directory@ == directory,
        site.runtime_key@ == directory,
        site.directory@ == joined(directory, encode_utf8(manifest.site_root@)),
{
}

/// What the errors of a search say.
pub proof fn law_resolve_messages(error: ManifestError, message: String)
    ensures
        ResolveError::InvalidHost.text() == "invalid Host header"@,
        ResolveError::Inspection.text() == "failed to inspect site directory"@,
        ResolveError::Manifest(error).text() == error.text(),
        ResolveError::Scan(message).text() == message@,
{
}

/// A `Host` header with nothing in it but white space and dots holds no host name.
pub proof fn law_no_host(front: Seq<char>, dots: nat, back: Seq<char>)
    requires
        forall|k: int| 0 <= k < front.len() ==> white_space(#[trigger] front[k]),
        forall|k: int| 0 <= k < back.len() ==> white_space(#[trigger] back[k]),
    ensures
        normalized(front + Seq::new(dots, |i: int| '.') + back) is None,
{
    let run = Seq::new(dots, |i: int| '.');
    let nothing = Seq::<char>::empty();
    if dots > 0 {
        assert(run[0] == '.' && run.last() == '.');
    }
    law_trimmed(front, run, back);
    law_marks_are_taken_off(nothing, dots, '.');
    assert(nothing + run =~= run);
    lemma_host_is_first_piece(nothing, nothing, nothing);
    assert(lower(nothing).len() == 0);
}

} // verus!
