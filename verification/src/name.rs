//! Name resolution: canonical identifiers, file locations and aliases.
//!
//! Each schema identifier is decomposed by a list of URL flavors (pattern
//! matchers that extract an origin, an optional namespace, a schema kind
//! and a short slug); the newest version of a base identifier keeps the
//! unsuffixed name and the canonical module entry point, older versions
//! are demoted into version-numbered files with version-suffixed names.
//! Batch resolution sorts its input, so the assignment depends only on
//! which identifiers are named, not on their order, and disambiguates
//! colliding names with position suffixes.

use vstd::prelude::*;

use crate::id::{id_leq, id_order, ids_view, lemma_id_leq_total_ordering, sort_ids, IdView, SchemaId};
use crate::store::SchemaStore;
use crate::strings::{
    capture_group, capture_names, groups_of, lemma_dec_injective, origin_of, path_of, pascal_of,
    re_capture, snek_of, spec_dec, to_pascal, to_snek, u32_to_dec, url_origin, url_path,
    usize_to_dec, view_opt,
};

verus! {

/// Which part of a URL a flavor pattern is matched against.
#[derive(Debug, Copy, Clone, PartialEq, Eq, Structural)]
pub enum Mode {
    /// Match the path component only; the origin comes from the URL.
    MatchPath,
    /// Match the whole URL; the origin comes from a capture group.
    MatchAll,
}

/// A pluggable URL pattern: a regex with named capture groups for the
/// schema kind, the slug, and optionally a namespace and origin.
#[derive(Debug)]
pub struct Flavor {
    pub name: String,
    pub mode: Mode,
    pub pattern: String,
}

/// The flavor pattern does not compile or lacks a capture group the mode
/// requires.
#[derive(Debug)]
pub struct FlavorError;

/// The pattern compiles and carries the capture groups the mode requires:
/// `kind` and `id` always, `origin` when the whole URL is matched.
pub open spec fn spec_pattern_ok(mode: Mode, pattern: Seq<char>) -> bool {
    match groups_of(pattern) {
        None => false,
        Some(gs) => gs.contains("kind"@) && gs.contains("id"@) && (mode is MatchAll
            ==> gs.contains("origin"@)),
    }
}

impl Mode {
    /// Whether a flavor pattern carries the named capture groups this mode
    /// requires; a pattern that lacks them could never produce a name.
    pub fn verify_pattern(self, pattern: &str) -> (r: bool)
        ensures
            r == spec_pattern_ok(self, pattern@),
    {
        match capture_names(pattern) {
            None => false,
            Some(names) => {
                let kind_ok = names_contain(&names, "kind");
                let id_ok = names_contain(&names, "id");
                match self {
                    Mode::MatchPath => kind_ok && id_ok,
                    Mode::MatchAll => kind_ok && id_ok && names_contain(&names, "origin"),
                }
            },
        }
    }
}

/// Is the word among the collected group names?
fn names_contain(names: &Vec<String>, word: &str) -> (r: bool)
    ensures
        r == names@.map_values(|s: String| s@).contains(word@),
{
    let ghost nv = names@.map_values(|s: String| s@);
    let w: String = word.to_owned();
    let mut i: usize = 0;
    while i < names.len()
        invariant
            i <= names@.len(),
            w@ == word@,
            nv == names@.map_values(|s: String| s@),
            forall|k: int| 0 <= k < i ==> (#[trigger] names@[k])@ != word@,
        decreases names@.len() - i,
    {
        if names[i] == w {
            proof {
                assert(nv[i as int] == word@);
            }
            return true;
        }
        i = i + 1;
    }
    proof {
        if nv.contains(word@) {
            let w = choose|w: int| 0 <= w < nv.len() && (#[trigger] nv[w]) == word@;
            assert(names@[w]@ == word@);
            assert(false);
        }
    }
    false
}

impl Flavor {
    /// Build a flavor, rejecting a pattern that does not compile or lacks
    /// the capture groups its mode requires.
    pub fn new(name: String, mode: Mode, pattern: String) -> (r: Result<Flavor, FlavorError>)
        ensures
            r is Ok <==> spec_pattern_ok(mode, pattern@),
            r matches Ok(f) ==> f.name@ == name@ && f.mode == mode && f.pattern@ == pattern@,
    {
        if mode.verify_pattern(pattern.as_str()) {
            Ok(Flavor { name, mode, pattern })
        } else {
            Err(FlavorError)
        }
    }
}

/// Replace one extracted value with another when it matches.
#[derive(Debug)]
pub struct OverrideAction {
    pub matches: String,
    pub replacement: String,
}

impl OverrideAction {
    pub fn new(replace: String, with: String) -> (r: Self)
        ensures
            r.matches@ == replace@,
            r.replacement@ == with@,
    {
        OverrideAction { matches: replace, replacement: with }
    }
}

/// Configurable rewrites applied to extracted URL parts.
#[derive(Debug)]
pub struct Override {
    pub origin: Option<OverrideAction>,
}

impl Override {
    pub fn new() -> (r: Self)
        ensures
            r.origin is None,
    {
        Override { origin: None }
    }

    pub fn with_origin(self, host: OverrideAction) -> (r: Self)
        ensures
            r.origin == Some(host),
    {
        Override { origin: Some(host) }
    }
}

/// The kind of schema a URL names.
#[derive(Debug, Copy, Clone, PartialEq, Eq, Structural)]
pub enum Kind {
    Data,
    Property,
    Entity,
}

impl Kind {
    pub open spec fn spec_str(self) -> Seq<char> {
        match self {
            Kind::Data => "data"@,
            Kind::Property => "property"@,
            Kind::Entity => "entity"@,
        }
    }

    pub fn as_str(self) -> (r: &'static str)
        ensures
            r@ == self.spec_str(),
    {
        match self {
            Kind::Data => "data",
            Kind::Property => "property",
            Kind::Entity => "entity",
        }
    }
}

/// What a flavor extracts from a URL.
#[derive(Debug)]
pub struct UrlParts {
    pub origin: String,
    pub namespace: Option<String>,
    pub kind: Kind,
    pub id: String,
}

/// Mathematical value of extracted URL parts.
#[verifier::ext_equal]
pub ghost struct PartsView {
    pub origin: Seq<char>,
    pub namespace: Option<Seq<char>>,
    pub kind: Kind,
    pub id: Seq<char>,
}

impl View for UrlParts {
    type V = PartsView;

    open spec fn view(&self) -> PartsView {
        PartsView {
            origin: self.origin@,
            namespace: view_opt(self.namespace),
            kind: self.kind,
            id: self.id@,
        }
    }
}

impl Override {
    /// Rewrite the origin when it matches the configured value.
    pub fn apply(&self, url: &mut UrlParts)
        ensures
            final (url)@ == spec_apply_override(*self, old(url)@),
    {
        if let Some(origin) = &self.origin {
            if url.origin == origin.matches {
                url.origin = origin.replacement.clone();
                proof {
                    assert(url@ =~= spec_apply_override(*self, old(url)@));
                }
            } else {
                proof {
                    assert(url@ =~= spec_apply_override(*self, old(url)@));
                }
            }
        } else {
            proof {
                assert(url@ =~= spec_apply_override(*self, old(url)@));
            }
        }
    }
}

pub open spec fn spec_apply_override(o: Override, p: PartsView) -> PartsView {
    match o.origin {
        Some(a) => if p.origin == a.matches@ {
            PartsView { origin: a.replacement@, ..p }
        } else {
            p
        },
        None => p,
    }
}

pub open spec fn spec_apply_overrides(os: Seq<Override>, p: PartsView) -> PartsView
    decreases os.len(),
{
    if os.len() == 0 {
        p
    } else {
        spec_apply_override(os.last(), spec_apply_overrides(os.drop_last(), p))
    }
}

/// The kind named by a capture, if it is one of the three known words.
pub open spec fn spec_kind_from(s: Seq<char>) -> Option<Kind> {
    if s == "data"@ {
        Some(Kind::Data)
    } else if s == "property"@ {
        Some(Kind::Property)
    } else if s == "entity"@ {
        Some(Kind::Entity)
    } else {
        None
    }
}

/// What one flavor extracts from a URL: `None` when its pattern does not
/// match, a capture group is absent, or the kind is not a known word.
pub open spec fn spec_flavor_parts(f: Flavor, url: Seq<char>) -> Option<PartsView> {
    let target = if f.mode is MatchPath {
        path_of(url)
    } else {
        Some(url)
    };
    match target {
        None => None,
        Some(t) => {
            let kcap = re_capture(f.pattern@, t, "kind"@);
            let icap = re_capture(f.pattern@, t, "id"@);
            let ncap = re_capture(f.pattern@, t, "namespace"@);
            let ocap = if f.mode is MatchPath {
                origin_of(url)
            } else {
                re_capture(f.pattern@, t, "origin"@)
            };
            match (kcap, icap, ocap) {
                (Some(ks), Some(is_), Some(os)) => match spec_kind_from(ks) {
                    Some(kind) => Some(
                        PartsView { origin: os, namespace: ncap, kind, id: is_ },
                    ),
                    None => None,
                },
                _ => None,
            }
        },
    }
}

/// What the first matching flavor extracts.
pub open spec fn spec_parts_from(flavors: Seq<Flavor>, url: Seq<char>) -> Option<PartsView>
    decreases flavors.len(),
{
    if flavors.len() == 0 {
        None
    } else {
        match spec_flavor_parts(flavors[0], url) {
            Some(p) => Some(p),
            None => spec_parts_from(flavors.drop_first(), url),
        }
    }
}

/// The built-in flavor for block-protocol style URLs.  Built literally:
/// what its groups capture is checked where a URL is decomposed, an
/// unmatched group simply reads as no match.
pub fn blockprotocol_flavor() -> (r: Flavor)
    ensures
        r.mode == Mode::MatchPath,
{
    Flavor {
        name: "block-protocol".to_owned(),
        mode: Mode::MatchPath,
        pattern: "/@(?P<namespace>[\\w-]+)/types/(?P<kind>data|property|entity)-type/(?P<id>[\\w\\-_%]+)/".to_owned(),
    }
}

fn exec_kind_from(s: &String) -> (r: Option<Kind>)
    ensures
        r == spec_kind_from(s@),
{
    if *s == "data".to_owned() {
        Some(Kind::Data)
    } else if *s == "property".to_owned() {
        Some(Kind::Property)
    } else if *s == "entity".to_owned() {
        Some(Kind::Entity)
    } else {
        None
    }
}

/// One directory of an output path.
#[derive(Debug)]
pub struct Directory(pub String);

/// The file of an output path.
#[derive(Debug)]
pub struct File(pub String);

/// An output path: directories, then a file.
#[derive(Debug)]
pub struct Path(pub Vec<Directory>, pub File);

/// A resolved name: the identifier to use, and an aliased identifier the
/// canonical module re-exports (for the newest version).
#[derive(Debug)]
pub struct Name {
    pub value: String,
    pub alias: Option<String>,
}

/// Where a resolved schema sits relative to its other versions.
#[derive(Debug)]
pub enum LocationKind {
    /// The newest version; `other` lists the other versions' identifiers.
    Latest { other: Vec<SchemaId> },
    /// An older version, demoted into a version-numbered file.
    Version,
}

/// A resolved output location: path, name, optional batch-disambiguation
/// alias, and version kind.
#[derive(Debug)]
pub struct Location {
    pub path: Path,
    pub name: Name,
    pub alias: Option<String>,
    pub kind: LocationKind,
}

/// Mathematical value of a location; the other versions are recorded as
/// a set, their order carries no meaning.
#[verifier::ext_equal]
pub ghost struct LocView {
    pub dirs: Seq<Seq<char>>,
    pub file: Seq<char>,
    pub name: Seq<char>,
    pub name_alias: Option<Seq<char>>,
    pub alias: Option<Seq<char>>,
    pub is_version: bool,
    pub others: Set<IdView>,
}

pub open spec fn dirs_view(dirs: Seq<Directory>) -> Seq<Seq<char>> {
    dirs.map_values(|d: Directory| d.0@)
}

pub open spec fn loc_view(l: Location) -> LocView {
    LocView {
        dirs: dirs_view(l.path.0@),
        file: l.path.1.0@,
        name: l.name.value@,
        name_alias: view_opt(l.name.alias),
        alias: view_opt(l.alias),
        is_version: l.kind is Version,
        others: match l.kind {
            LocationKind::Latest { other } => ids_view(other@).to_set(),
            LocationKind::Version => Set::empty(),
        },
    }
}

/// Which module file the newest version is hoisted to.
#[derive(Debug, Copy, Clone, PartialEq, Eq, Structural)]
pub enum ModuleFlavor {
    /// `mod.rs` inside a directory named after the schema.
    ModRs,
    /// A file named after the schema.
    ModuleRs,
}

/// Assigns canonical names, paths and aliases from the schema store.
pub struct NameResolver {
    pub lookup: SchemaStore,
    pub overrides: Vec<Override>,
    pub module: ModuleFlavor,
    pub flavors: Vec<Flavor>,
}

impl NameResolver {
    pub open spec fn wf(&self) -> bool {
        self.lookup.wf()
    }

    /// The parts the configured flavors extract for an identifier's base
    /// URL, after overrides.
    pub open spec fn spec_parts(&self, url: Seq<char>) -> Option<PartsView> {
        match spec_parts_from(self.flavors@, url) {
            Some(p) => Some(spec_apply_overrides(self.overrides@, p)),
            None => None,
        }
    }

    /// The first-pass name of an identifier: the pascal-cased slug, or the
    /// pascal-cased schema title when no flavor matches.
    pub open spec fn spec_base_name(&self, v: IdView) -> Seq<char> {
        match self.spec_parts(v.base) {
            Some(p) => pascal_of(p.id),
            None => pascal_of(self.lookup@[v].spec_title()),
        }
    }

    /// A strictly newer version of the same base identifier is stored.
    pub open spec fn spec_newer_exists(&self, v: IdView) -> bool {
        exists|w: IdView|
            #[trigger] self.lookup@.dom().contains(w) && w.base == v.base && w.version > v.version
    }

    /// Another version (older or newer) of the same base identifier is
    /// stored.
    pub open spec fn spec_other_versions(&self, v: IdView) -> Set<IdView> {
        Set::new(
            |w: IdView| self.lookup@.dom().contains(w) && w.base == v.base && w.version != v.version,
        )
    }

    /// The version-suffixed form of the first-pass name.
    pub open spec fn spec_suffixed(&self, v: IdView) -> Seq<char> {
        self.spec_base_name(v).push('V') + spec_dec(v.version)
    }

    /// The name an identifier resolves to: suffixed when a newer version
    /// exists, unsuffixed otherwise.
    pub open spec fn spec_name_value(&self, v: IdView) -> Seq<char> {
        if self.spec_newer_exists(v) {
            self.spec_suffixed(v)
        } else {
            self.spec_base_name(v)
        }
    }

    /// The directories of the first-pass path.
    pub open spec fn spec_raw_dirs(&self, v: IdView) -> Seq<Seq<char>> {
        match self.spec_parts(v.base) {
            None => Seq::empty(),
            Some(p) => {
                let head = seq![snek_of(p.origin)];
                let mid = match p.namespace {
                    Some(ns) => seq![snek_of(ns)],
                    None => Seq::<Seq<char>>::empty(),
                };
                head + mid + seq![p.kind.spec_str()]
            },
        }
    }

    /// The file of the first-pass path.
    pub open spec fn spec_raw_file(&self, v: IdView) -> Seq<char> {
        match self.spec_parts(v.base) {
            None => snek_of(v.base),
            Some(p) => snek_of(p.id),
        }
    }

    /// The directories after version handling.
    pub open spec fn spec_dirs(&self, v: IdView) -> Seq<Seq<char>> {
        if self.spec_newer_exists(v) {
            self.spec_raw_dirs(v).push(self.spec_raw_file(v))
        } else if self.spec_other_versions(v) != Set::<IdView>::empty() && self.module
            == ModuleFlavor::ModRs {
            self.spec_raw_dirs(v).push(self.spec_raw_file(v))
        } else {
            self.spec_raw_dirs(v)
        }
    }

    /// The file after version handling.
    pub open spec fn spec_file(&self, v: IdView) -> Seq<char> {
        if self.spec_newer_exists(v) {
            "v"@ + spec_dec(v.version)
        } else if self.spec_other_versions(v) != Set::<IdView>::empty() && self.module
            == ModuleFlavor::ModRs {
            "mod"@
        } else {
            self.spec_raw_file(v)
        }
    }

    /// The whole location of an identifier, without batch aliasing.
    pub open spec fn spec_location(&self, v: IdView) -> LocView {
        LocView {
            dirs: self.spec_dirs(v),
            file: self.spec_file(v),
            name: self.spec_name_value(v),
            name_alias: if self.spec_newer_exists(v) {
                None
            } else {
                Some(self.spec_suffixed(v))
            },
            alias: None,
            is_version: self.spec_newer_exists(v),
            others: if self.spec_newer_exists(v) {
                Set::empty()
            } else {
                self.spec_other_versions(v)
            },
        }
    }
}


/// `Option<UrlParts>` seen as a mathematical value.
pub open spec fn view_opt_parts(o: Option<UrlParts>) -> Option<PartsView> {
    match o {
        Some(p) => Some(p@),
        None => None,
    }
}

/// What one flavor extracts, executable form.
fn flavor_parts(f: &Flavor, url: &str) -> (r: Option<UrlParts>)
    ensures
        view_opt_parts(r) == spec_flavor_parts(*f, url@),
{
    let target_opt: Option<String> = match f.mode {
        Mode::MatchPath => url_path(url),
        Mode::MatchAll => Some(url.to_owned()),
    };
    match target_opt {
        None => None,
        Some(t) => {
            let kcap = capture_group(f.pattern.as_str(), t.as_str(), "kind");
            let icap = capture_group(f.pattern.as_str(), t.as_str(), "id");
            let ncap = capture_group(f.pattern.as_str(), t.as_str(), "namespace");
            let ocap: Option<String> = match f.mode {
                Mode::MatchPath => url_origin(url),
                Mode::MatchAll => capture_group(f.pattern.as_str(), t.as_str(), "origin"),
            };
            match (kcap, icap, ocap) {
                (Some(ks), Some(slug), Some(os)) => match exec_kind_from(&ks) {
                    Some(kind) => {
                        let p = UrlParts { origin: os, namespace: ncap, kind, id: slug };
                        proof {
                            assert(spec_flavor_parts(*f, url@) matches Some(q) && q =~= p@);
                        }
                        Some(p)
                    },
                    None => None,
                },
                _ => None,
            }
        },
    }
}

impl NameResolver {
    /// A resolver over the given store, with the built-in flavor.
    pub fn new(lookup: SchemaStore) -> (r: Self)
        requires
            lookup.wf(),
        ensures
            r.wf(),
            r.lookup == lookup,
            r.module == ModuleFlavor::ModRs,
    {
        let mut flavors: Vec<Flavor> = Vec::new();
        flavors.push(blockprotocol_flavor());
        NameResolver { lookup, overrides: Vec::new(), module: ModuleFlavor::ModRs, flavors }
    }

    pub fn with_override(&mut self, value: Override)
        ensures
            final (self).overrides@ == old(self).overrides@.push(value),
            final (self).lookup == old(self).lookup,
            final (self).module == old(self).module,
            final (self).flavors == old(self).flavors,
    {
        self.overrides.push(value);
    }

    pub fn with_module_flavor(&mut self, flavor: ModuleFlavor)
        ensures
            final (self).module == flavor,
            final (self).lookup == old(self).lookup,
            final (self).overrides == old(self).overrides,
            final (self).flavors == old(self).flavors,
    {
        self.module = flavor;
    }

    pub fn with_flavor(&mut self, flavor: Flavor)
        ensures
            final (self).flavors@ == old(self).flavors@.push(flavor),
            final (self).lookup == old(self).lookup,
            final (self).module == old(self).module,
            final (self).overrides == old(self).overrides,
    {
        self.flavors.push(flavor);
    }

    /// The store the resolver names.
    pub fn store(&self) -> (r: &SchemaStore)
        ensures
            r == &self.lookup,
    {
        &self.lookup
    }

    /// Decompose a URL with the configured flavors and overrides.
    fn url_into_parts(&self, url: &str) -> (r: Option<UrlParts>)
        ensures
            view_opt_parts(r) == self.spec_parts(url@),
    {
        let mut i: usize = 0;
        proof {
            assert(self.flavors@.skip(0) =~= self.flavors@);
        }
        while i < self.flavors.len()
            invariant
                i <= self.flavors@.len(),
                spec_parts_from(self.flavors@, url@) == spec_parts_from(
                    self.flavors@.skip(i as int),
                    url@,
                ),
            decreases self.flavors@.len() - i,
        {
            proof {
                assert(self.flavors@.skip(i as int)[0] == self.flavors@[i as int]);
                assert(self.flavors@.skip(i as int).drop_first() =~= self.flavors@.skip(i + 1));
            }
            match flavor_parts(&self.flavors[i], url) {
                Some(mut p) => {
                    let ghost p0 = p@;
                    let mut j: usize = 0;
                    while j < self.overrides.len()
                        invariant
                            j <= self.overrides@.len(),
                            p@ == spec_apply_overrides(self.overrides@.take(j as int), p0),
                        decreases self.overrides@.len() - j,
                    {
                        self.overrides[j].apply(&mut p);
                        proof {
                            assert(self.overrides@.take(j + 1).drop_last() =~= self.overrides@.take(
                                j as int,
                            ));
                            assert(self.overrides@.take(j + 1).last() == self.overrides@[j as int]);
                        }
                        j = j + 1;
                    }
                    proof {
                        assert(self.overrides@.take(self.overrides@.len() as int)
                            =~= self.overrides@);
                    }
                    return Some(p);
                },
                None => {},
            }
            i = i + 1;
        }
        proof {
            assert(self.flavors@.skip(self.flavors@.len() as int) =~= Seq::<Flavor>::empty());
        }
        None
    }

    /// The first-pass name: pascal-cased slug or title.
    fn base_name(&self, id: &SchemaId, parts: &Option<UrlParts>) -> (r: String)
        requires
            self.wf(),
            self.lookup@.dom().contains(id@),
            view_opt_parts(*parts) == self.spec_parts(id@.base),
        ensures
            r@ == self.spec_base_name(id@),
    {
        match parts {
            Some(p) => to_pascal(p.id.as_str()),
            None => {
                match self.lookup.get(id) {
                    Some(t) => to_pascal(t.title()),
                    None => {
                        proof {
                            assert(false);
                        }
                        to_pascal("")
                    },
                }
            },
        }
    }

    /// Is a strictly newer version of the same base stored?
    fn has_newer(&self, id: &SchemaId) -> (r: bool)
        requires
            self.wf(),
        ensures
            r == self.spec_newer_exists(id@),
    {
        proof {
            self.lookup.lemma_view_items();
        }
        let items = self.lookup.items();
        let mut i: usize = 0;
        while i < items.len()
            invariant
                self.wf(),
                items@ == self.lookup.spec_items(),
                i <= items@.len(),
                forall|k: int|
                    0 <= k < i ==> !((#[trigger] items@[k]).spec_id().base == id@.base
                        && items@[k].spec_id().version > id@.version),
            decreases items@.len() - i,
        {
            let other = items[i].id();
            if other.same_base(id) && other.version() > id.version() {
                proof {
                    self.lookup.lemma_view_items();
                    assert(self.lookup@.dom().contains(items@[i as int].spec_id()));
                }
                return true;
            }
            i = i + 1;
        }
        proof {
            self.lookup.lemma_view_items();
            if self.spec_newer_exists(id@) {
                let w = choose|w: IdView|
                    #[trigger] self.lookup@.dom().contains(w) && w.base == id@.base && w.version
                        > id@.version;
                let j = choose|j: int|
                    0 <= j < self.lookup.spec_items().len() && (
                    #[trigger] self.lookup.spec_items()[j]).spec_id() == w;
                assert(false);
            }
        }
        false
    }

    /// The other stored versions of the same base identifier.
    fn other_versions(&self, id: &SchemaId) -> (r: Vec<SchemaId>)
        requires
            self.wf(),
        ensures
            ids_view(r@).to_set() == self.spec_other_versions(id@),
    {
        broadcast use vstd::seq_lib::group_seq_properties;

        proof {
            self.lookup.lemma_view_items();
        }
        let items = self.lookup.items();
        let mut r: Vec<SchemaId> = Vec::new();
        let mut i: usize = 0;
        while i < items.len()
            invariant
                self.wf(),
                items@ == self.lookup.spec_items(),
                i <= items@.len(),
                forall|d: int|
                    0 <= d < r@.len() ==> self.spec_other_versions(id@).contains(
                        (#[trigger] r@[d])@,
                    ),
                forall|k: int|
                    0 <= k < i && (#[trigger] items@[k]).spec_id().base == id@.base
                        && items@[k].spec_id().version != id@.version ==> ids_view(r@).contains(
                        items@[k].spec_id(),
                    ),
            decreases items@.len() - i,
        {
            let ghost r_pre = r@;
            let other = items[i].id();
            if other.same_base(id) && !(other.version() == id.version()) {
                r.push(other.clone());
                proof {
                    self.lookup.lemma_view_items();
                    assert(self.lookup@.dom().contains(items@[i as int].spec_id()));
                    assert(r@[r@.len() - 1]@ == items@[i as int].spec_id());
                    assert(ids_view(r@) =~= ids_view(r_pre).push(items@[i as int].spec_id()));
                    assert forall|k: int|
                        0 <= k < i + 1 && (#[trigger] items@[k]).spec_id().base == id@.base
                            && items@[k].spec_id().version != id@.version implies ids_view(
                        r@,
                    ).contains(items@[k].spec_id()) by {
                        if k < i {
                            let d = choose|d: int|
                                0 <= d < ids_view(r_pre).len() && ids_view(r_pre)[d] == items@[
                                k].spec_id();
                            assert(ids_view(r@)[d] == items@[k].spec_id());
                        } else {
                            assert(ids_view(r@)[ids_view(r@).len() - 1] == items@[k].spec_id());
                        }
                    }
                }
            } else {
                proof {
                    assert forall|k: int|
                        0 <= k < i + 1 && (#[trigger] items@[k]).spec_id().base == id@.base
                            && items@[k].spec_id().version != id@.version implies ids_view(
                        r@,
                    ).contains(items@[k].spec_id()) by {
                        assert(k < i);
                    }
                }
            }
            i = i + 1;
        }
        proof {
            self.lookup.lemma_view_items();
            assert forall|w: IdView| #[trigger] ids_view(r@).to_set().contains(w)
                implies self.spec_other_versions(id@).contains(w) by {
                let d = choose|d: int| 0 <= d < ids_view(r@).len() && ids_view(r@)[d] == w;
                assert(r@[d]@ == w);
            }
            assert forall|w: IdView| #[trigger] self.spec_other_versions(id@).contains(w)
                implies ids_view(r@).to_set().contains(w) by {
                assert(self.lookup@.dom().contains(w));
                let j = choose|j: int|
                    0 <= j < self.lookup.spec_items().len() && (
                    #[trigger] self.lookup.spec_items()[j]).spec_id() == w;
                assert(ids_view(r@).contains(w));
            }
            assert(ids_view(r@).to_set() =~= self.spec_other_versions(id@));
        }
        r
    }

    /// The version-suffixed name.
    fn suffixed_name(&self, id: &SchemaId, base: &String) -> (r: String)
        requires
            base@ == self.spec_base_name(id@),
        ensures
            r@ == self.spec_suffixed(id@),
    {
        let mut r = base.clone();
        r.append("V");
        let d = u32_to_dec(id.version());
        r.append(d.as_str());
        proof {
            reveal_strlit("V");
            assert(r@ =~= self.spec_suffixed(id@));
        }
        r
    }

    /// The module location of an identifier: resolved name, output path,
    /// and version kind.  The newest version keeps the unsuffixed name and
    /// the canonical module file; older versions get a version-suffixed
    /// name inside a version-numbered file.
    pub fn location(&self, id: &SchemaId) -> (r: Location)
        requires
            self.wf(),
            self.lookup@.dom().contains(id@),
        ensures
            loc_view(r) == self.spec_location(id@),
    {
        let parts = self.url_into_parts(id.base());
        let base = self.base_name(id, &parts);
        let newer = self.has_newer(id);
        let mut dirs: Vec<Directory> = Vec::new();
        let file_s: String = match &parts {
            Some(p) => {
                dirs.push(Directory(to_snek(p.origin.as_str())));
                if let Some(ns) = &p.namespace {
                    dirs.push(Directory(to_snek(ns.as_str())));
                }
                dirs.push(Directory(p.kind.as_str().to_owned()));
                to_snek(p.id.as_str())
            },
            None => to_snek(id.base()),
        };
        proof {
            assert(dirs_view(dirs@) =~= self.spec_raw_dirs(id@));
            assert(file_s@ == self.spec_raw_file(id@));
        }
        let sfx = self.suffixed_name(id, &base);
        if newer {
            let mut d2 = dirs;
            d2.push(Directory(file_s));
            let mut vf = "v".to_owned();
            let vd = u32_to_dec(id.version());
            vf.append(vd.as_str());
            let r = Location {
                path: Path(d2, File(vf)),
                name: Name { value: sfx, alias: None },
                alias: None,
                kind: LocationKind::Version,
            };
            proof {
                assert(dirs_view(r.path.0@) =~= self.spec_dirs(id@));
                assert(loc_view(r) =~= self.spec_location(id@));
            }
            r
        } else {
            let other = self.other_versions(id);
            let hoist = other.len() > 0 && matches!(self.module, ModuleFlavor::ModRs);
            proof {
                broadcast use vstd::set::group_set_axioms;

                if other@.len() > 0 {
                    assert(ids_view(other@)[0] == other@[0]@);
                    assert(ids_view(other@).contains(other@[0]@));
                    assert(ids_view(other@).to_set().contains(other@[0]@));
                    assert(!Set::<IdView>::empty().contains(other@[0]@));
                    assert(self.spec_other_versions(id@) != Set::<IdView>::empty());
                } else {
                    assert forall|w: IdView| !(#[trigger] ids_view(other@).to_set().contains(w)) by {
                        if ids_view(other@).contains(w) {
                            let d = choose|d: int|
                                0 <= d < ids_view(other@).len() && ids_view(other@)[d] == w;
                        }
                    }
                    assert(ids_view(other@).to_set() =~= Set::<IdView>::empty());
                }
            }
            if hoist {
                let mut d2 = dirs;
                d2.push(Directory(file_s));
                let r = Location {
                    path: Path(d2, File("mod".to_owned())),
                    name: Name { value: base, alias: Some(sfx) },
                    alias: None,
                    kind: LocationKind::Latest { other },
                };
                proof {
                    assert(dirs_view(r.path.0@) =~= self.spec_dirs(id@));
                    assert(loc_view(r) =~= self.spec_location(id@));
                }
                r
            } else {
                let r = Location {
                    path: Path(dirs, File(file_s)),
                    name: Name { value: base, alias: Some(sfx) },
                    alias: None,
                    kind: LocationKind::Latest { other },
                };
                proof {
                    assert(dirs_view(r.path.0@) =~= self.spec_dirs(id@));
                    assert(loc_view(r) =~= self.spec_location(id@));
                }
                r
            }
        }
    }

    /// The resolved name of an identifier: version-suffixed when a newer
    /// version exists.
    pub fn name(&self, id: &SchemaId) -> (r: Name)
        requires
            self.wf(),
            self.lookup@.dom().contains(id@),
        ensures
            r.value@ == self.spec_name_value(id@),
            view_opt(r.alias) == if self.spec_newer_exists(id@) {
                Option::<Seq<char>>::None
            } else {
                Some(self.spec_suffixed(id@))
            },
    {
        let parts = self.url_into_parts(id.base());
        let base = self.base_name(id, &parts);
        let sfx = self.suffixed_name(id, &base);
        if self.has_newer(id) {
            Name { value: sfx, alias: None }
        } else {
            Name { value: base, alias: Some(sfx) }
        }
    }
}


/// Adjacent duplicates removed; on a sorted sequence this removes all
/// duplicates, keeping one representative each.
pub open spec fn dedup_spec(s: Seq<IdView>) -> Seq<IdView>
    decreases s.len(),
{
    if s.len() == 0 {
        Seq::empty()
    } else if s.len() >= 2 && s.last() == s[s.len() - 2] {
        dedup_spec(s.drop_last())
    } else {
        dedup_spec(s.drop_last()).push(s.last())
    }
}

impl NameResolver {
    /// How many identifiers of the batch share this identifier's name.
    pub open spec fn spec_count_matching(&self, sd: Seq<IdView>, v: IdView) -> nat
        decreases sd.len(),
    {
        if sd.len() == 0 {
            0
        } else {
            self.spec_count_matching(sd.drop_last(), v) + if self.spec_name_value(sd.last())
                == self.spec_name_value(v) {
                1nat
            } else {
                0nat
            }
        }
    }

    /// The batch-disambiguation alias of the entry at `k`: when its name
    /// collides, the name suffixed with the entry's position among the
    /// colliding identifiers.
    pub open spec fn spec_batch_alias(&self, sd: Seq<IdView>, k: int) -> Option<Seq<char>> {
        if self.spec_count_matching(sd, sd[k]) > 1 {
            Some(self.spec_name_value(sd[k]) + spec_dec(
                self.spec_count_matching(sd.take(k), sd[k]) as int,
            ))
        } else {
            None
        }
    }

    /// The whole batch entry at `k`.
    pub open spec fn spec_batch_entry(&self, sd: Seq<IdView>, k: int) -> LocView {
        LocView { alias: self.spec_batch_alias(sd, k), ..self.spec_location(sd[k]) }
    }

    /// The sorted, duplicate-free identifier sequence a batch resolves.
    pub open spec fn spec_batch_ids(input: Seq<IdView>) -> Seq<IdView> {
        dedup_spec(input.sort_by(id_order()))
    }

    /// Resolve locations for a whole batch: the identifiers are sorted and
    /// de-duplicated, so the assignment depends only on which identifiers
    /// are in the batch; identifiers whose names collide get aliases
    /// suffixed with their position among the colliding ones.  The
    /// suffixes separate the members of one name group from each other,
    /// not from other groups: a batch whose first-pass names already end
    /// in such a suffix can still collide with a suffixed alias.
    pub fn locations(&self, urls: &Vec<SchemaId>) -> (r: Vec<(SchemaId, Location)>)
        requires
            self.wf(),
            forall|k: int| 0 <= k < urls@.len() ==> self.lookup@.dom().contains((#[trigger] urls@[k])@),
        ensures
            ids_view(r@.map_values(|e: (SchemaId, Location)| e.0)) == Self::spec_batch_ids(
                ids_view(urls@),
            ),
            forall|k: int|
                0 <= k < r@.len() ==> loc_view((#[trigger] r@[k]).1) == self.spec_batch_entry(
                    Self::spec_batch_ids(ids_view(urls@)),
                    k,
                ),
    {
        broadcast use vstd::seq_lib::group_to_multiset_ensures;

        let ghost input = ids_view(urls@);
        let ghost leq = id_order();
        let cloned = crate::schema::clone_ids(urls);
        let sorted = sort_ids(cloned);
        proof {
            lemma_id_leq_total_ordering();
            assert(vstd::relations::total_ordering(leq)) by {
                assert(leq == (|x: IdView, y: IdView| id_leq(x, y)));
            }
            input.lemma_sort_by_ensures(leq);
            assert(ids_view(cloned@) == input);
            assert(vstd::relations::sorted_by(ids_view(sorted@), leq)) by {
                assert(leq == (|x: IdView, y: IdView| id_leq(x, y)));
            }
            vstd::seq_lib::lemma_sorted_unique(ids_view(sorted@), input.sort_by(leq), leq);
            assert(ids_view(sorted@) == input.sort_by(leq));
            // every sorted entry is a stored identifier
            assert forall|k: int|
                0 <= k < sorted@.len() implies self.lookup@.dom().contains(
                (#[trigger] sorted@[k])@,
            ) by {
                assert(ids_view(sorted@)[k] == sorted@[k]@);
                assert(ids_view(sorted@).contains(sorted@[k]@));
                assert(ids_view(sorted@).to_multiset().contains(sorted@[k]@));
                assert(input.to_multiset().contains(sorted@[k]@));
                assert(input.contains(sorted@[k]@));
                let w = choose|w: int| 0 <= w < input.len() && input[w] == sorted@[k]@;
                assert(urls@[w]@ == sorted@[k]@);
            }
        }
        // drop duplicate identifiers, which sorting made adjacent
        let mut sd: Vec<SchemaId> = Vec::new();
        let mut i: usize = 0;
        while i < sorted.len()
            invariant
                self.wf(),
                i <= sorted@.len(),
                ids_view(sd@) == dedup_spec(ids_view(sorted@).take(i as int)),
                forall|k: int|
                    0 <= k < sorted@.len() ==> self.lookup@.dom().contains((#[trigger] sorted@[k])@),
                forall|d: int| 0 <= d < sd@.len() ==> self.lookup@.dom().contains((#[trigger] sd@[d])@),
            decreases sorted@.len() - i,
        {
            let ghost sv = ids_view(sorted@);
            proof {
                assert(sv.take(i + 1).drop_last() =~= sv.take(i as int));
                assert(sv.take(i + 1).last() == sv[i as int]);
            }
            if i == 0 || !(sorted[i] == sorted[i - 1]) {
                sd.push(sorted[i].clone());
                proof {
                    assert(ids_view(sd@) =~= dedup_spec(sv.take(i as int)).push(sv[i as int]));
                    if i > 0 {
                        assert(sv.take(i + 1)[i - 1] == sv[i - 1]);
                    }
                }
            } else {
                proof {
                    assert(sv.take(i + 1)[i - 1] == sv[i - 1]);
                    assert(sv[i as int] == sv[i - 1]);
                }
            }
            i = i + 1;
        }
        proof {
            assert(ids_view(sorted@).take(sorted@.len() as int) =~= ids_view(sorted@));
        }
        let ghost sdv = ids_view(sd@);
        // first pass: names
        let mut names: Vec<String> = Vec::new();
        let mut k: usize = 0;
        while k < sd.len()
            invariant
                self.wf(),
                k <= sd@.len(),
                names@.len() == k,
                sdv == ids_view(sd@),
                forall|d: int| 0 <= d < sd@.len() ==> self.lookup@.dom().contains((#[trigger] sd@[d])@),
                forall|d: int| 0 <= d < k ==> (#[trigger] names@[d])@ == self.spec_name_value(sdv[d]),
            decreases sd@.len() - k,
        {
            let nm = self.name(&sd[k]);
            names.push(nm.value);
            k = k + 1;
        }
        // second pass: locations with collision aliases
        let mut out: Vec<(SchemaId, Location)> = Vec::new();
        let mut k2: usize = 0;
        while k2 < sd.len()
            invariant
                self.wf(),
                k2 <= sd@.len(),
                out@.len() == k2,
                sdv == ids_view(sd@),
                names@.len() == sd@.len(),
                forall|d: int| 0 <= d < sd@.len() ==> self.lookup@.dom().contains((#[trigger] sd@[d])@),
                forall|d: int|
                    0 <= d < sd@.len() ==> (#[trigger] names@[d])@ == self.spec_name_value(sdv[d]),
                forall|d: int| 0 <= d < k2 ==> (#[trigger] out@[d]).0@ == sdv[d],
                forall|d: int|
                    0 <= d < k2 ==> loc_view((#[trigger] out@[d]).1) == self.spec_batch_entry(
                        sdv,
                        d,
                    ),
            decreases sd@.len() - k2,
        {
            let mut total: usize = 0;
            let mut before: usize = 0;
            let mut j: usize = 0;
            while j < sd.len()
                invariant
                    k2 < sd@.len(),
                    j <= sd@.len(),
                    sdv == ids_view(sd@),
                    names@.len() == sd@.len(),
                    forall|d: int|
                        0 <= d < sd@.len() ==> (#[trigger] names@[d])@ == self.spec_name_value(
                            sdv[d],
                        ),
                    total == self.spec_count_matching(sdv.take(j as int), sdv[k2 as int]),
                    before == self.spec_count_matching(
                        sdv.take(if j <= k2 {
                            j as int
                        } else {
                            k2 as int
                        }),
                        sdv[k2 as int],
                    ),
                    total <= j,
                decreases sd@.len() - j,
            {
                proof {
                    assert(sdv.take(j + 1).drop_last() =~= sdv.take(j as int));
                    assert(sdv.take(j + 1).last() == sdv[j as int]);
                }
                if names[j] == names[k2] {
                    total = total + 1;
                    if j < k2 {
                        before = before + 1;
                    }
                } else {
                }
                j = j + 1;
            }
            proof {
                assert(sdv.take(sd@.len() as int) =~= sdv);
            }
            let mut loc = self.location(&sd[k2]);
            if total > 1 {
                let mut a = names[k2].clone();
                let d = usize_to_dec(before);
                a.append(d.as_str());
                loc.alias = Some(a);
            }
            proof {
                assert(loc_view(loc) =~= self.spec_batch_entry(sdv, k2 as int));
            }
            out.push((sd[k2].clone(), loc));
            k2 = k2 + 1;
        }
        proof {
            assert(ids_view(out@.map_values(|e: (SchemaId, Location)| e.0)) =~= sdv);
        }
        out
    }
}

/// The name of the accessor or field for a property reference.
#[derive(Debug)]
pub struct PropertyName(pub String);

impl NameResolver {
    /// The snake-cased form of a property reference's slug or title;
    /// versions are not distinguished here.
    pub open spec fn spec_property_name(&self, v: IdView) -> Seq<char> {
        match self.spec_parts(v.base) {
            Some(p) => snek_of(p.id),
            None => snek_of(self.lookup@[v].spec_title()),
        }
    }

    pub fn property_name(&self, id: &SchemaId) -> (r: PropertyName)
        requires
            self.wf(),
            self.lookup@.dom().contains(id@),
        ensures
            r.0@ == self.spec_property_name(id@),
    {
        let parts = self.url_into_parts(id.base());
        match parts {
            Some(p) => PropertyName(to_snek(p.id.as_str())),
            None => {
                match self.lookup.get(id) {
                    Some(t) => PropertyName(to_snek(t.title())),
                    None => {
                        proof {
                            assert(false);
                        }
                        PropertyName(to_snek(""))
                    },
                }
            },
        }
    }
}

impl NameResolver {
    /// How many identifiers of the batch share this identifier's property
    /// name.
    pub open spec fn spec_pcount_matching(&self, sd: Seq<IdView>, v: IdView) -> nat
        decreases sd.len(),
    {
        if sd.len() == 0 {
            0
        } else {
            self.spec_pcount_matching(sd.drop_last(), v) + if self.spec_property_name(sd.last())
                == self.spec_property_name(v) {
                1nat
            } else {
                0nat
            }
        }
    }

    /// The property name the batch entry at `k` resolves to: suffixed with
    /// its position among identifiers of the same name when it collides.
    pub open spec fn spec_batch_property_name(&self, sd: Seq<IdView>, k: int) -> Seq<char> {
        if self.spec_pcount_matching(sd, sd[k]) > 1 {
            self.spec_property_name(sd[k]).push('_') + spec_dec(
                self.spec_pcount_matching(sd.take(k), sd[k]) as int,
            )
        } else {
            self.spec_property_name(sd[k])
        }
    }

    /// Resolve property names for a whole batch, suffixing colliding names
    /// with their position among the colliding identifiers.
    pub fn property_names(&self, urls: &Vec<SchemaId>) -> (r: Vec<(SchemaId, PropertyName)>)
        requires
            self.wf(),
            forall|k: int| 0 <= k < urls@.len() ==> self.lookup@.dom().contains((#[trigger] urls@[k])@),
        ensures
            ids_view(r@.map_values(|e: (SchemaId, PropertyName)| e.0)) == Self::spec_batch_ids(
                ids_view(urls@),
            ),
            forall|k: int|
                0 <= k < r@.len() ==> ((#[trigger] r@[k]).1).0@ == self.spec_batch_property_name(
                    Self::spec_batch_ids(ids_view(urls@)),
                    k,
                ),
    {
        broadcast use vstd::seq_lib::group_to_multiset_ensures;

        let ghost input = ids_view(urls@);
        let ghost leq = id_order();
        let cloned = crate::schema::clone_ids(urls);
        let sorted = sort_ids(cloned);
        proof {
            lemma_id_leq_total_ordering();
            assert(vstd::relations::total_ordering(leq)) by {
                assert(leq == (|x: IdView, y: IdView| id_leq(x, y)));
            }
            input.lemma_sort_by_ensures(leq);
            assert(ids_view(cloned@) == input);
            assert(vstd::relations::sorted_by(ids_view(sorted@), leq)) by {
                assert(leq == (|x: IdView, y: IdView| id_leq(x, y)));
            }
            vstd::seq_lib::lemma_sorted_unique(ids_view(sorted@), input.sort_by(leq), leq);
            assert(ids_view(sorted@) == input.sort_by(leq));
            assert forall|k: int|
                0 <= k < sorted@.len() implies self.lookup@.dom().contains(
                (#[trigger] sorted@[k])@,
            ) by {
                assert(ids_view(sorted@)[k] == sorted@[k]@);
                assert(ids_view(sorted@).contains(sorted@[k]@));
                assert(ids_view(sorted@).to_multiset().contains(sorted@[k]@));
                assert(input.to_multiset().contains(sorted@[k]@));
                assert(input.contains(sorted@[k]@));
                let w = choose|w: int| 0 <= w < input.len() && input[w] == sorted@[k]@;
                assert(urls@[w]@ == sorted@[k]@);
            }
        }
        let mut sd: Vec<SchemaId> = Vec::new();
        let mut i: usize = 0;
        while i < sorted.len()
            invariant
                self.wf(),
                i <= sorted@.len(),
                ids_view(sd@) == dedup_spec(ids_view(sorted@).take(i as int)),
                forall|k: int|
                    0 <= k < sorted@.len() ==> self.lookup@.dom().contains((#[trigger] sorted@[k])@),
                forall|d: int| 0 <= d < sd@.len() ==> self.lookup@.dom().contains((#[trigger] sd@[d])@),
            decreases sorted@.len() - i,
        {
            let ghost sv = ids_view(sorted@);
            proof {
                assert(sv.take(i + 1).drop_last() =~= sv.take(i as int));
                assert(sv.take(i + 1).last() == sv[i as int]);
            }
            if i == 0 || !(sorted[i] == sorted[i - 1]) {
                sd.push(sorted[i].clone());
                proof {
                    assert(ids_view(sd@) =~= dedup_spec(sv.take(i as int)).push(sv[i as int]));
                    if i > 0 {
                        assert(sv.take(i + 1)[i - 1] == sv[i - 1]);
                    }
                }
            } else {
                proof {
                    assert(sv.take(i + 1)[i - 1] == sv[i - 1]);
                    assert(sv[i as int] == sv[i - 1]);
                }
            }
            i = i + 1;
        }
        proof {
            assert(ids_view(sorted@).take(sorted@.len() as int) =~= ids_view(sorted@));
        }
        let ghost sdv = ids_view(sd@);
        let mut names: Vec<PropertyName> = Vec::new();
        let mut k: usize = 0;
        while k < sd.len()
            invariant
                self.wf(),
                k <= sd@.len(),
                names@.len() == k,
                sdv == ids_view(sd@),
                forall|d: int| 0 <= d < sd@.len() ==> self.lookup@.dom().contains((#[trigger] sd@[d])@),
                forall|d: int|
                    0 <= d < k ==> ((#[trigger] names@[d]).0)@ == self.spec_property_name(sdv[d]),
            decreases sd@.len() - k,
        {
            let nm = self.property_name(&sd[k]);
            names.push(nm);
            k = k + 1;
        }
        let mut out: Vec<(SchemaId, PropertyName)> = Vec::new();
        let mut k2: usize = 0;
        while k2 < sd.len()
            invariant
                self.wf(),
                k2 <= sd@.len(),
                out@.len() == k2,
                sdv == ids_view(sd@),
                names@.len() == sd@.len(),
                forall|d: int| 0 <= d < sd@.len() ==> self.lookup@.dom().contains((#[trigger] sd@[d])@),
                forall|d: int|
                    0 <= d < sd@.len() ==> ((#[trigger] names@[d]).0)@ == self.spec_property_name(
                        sdv[d],
                    ),
                forall|d: int| 0 <= d < k2 ==> (#[trigger] out@[d]).0@ == sdv[d],
                forall|d: int|
                    0 <= d < k2 ==> ((#[trigger] out@[d]).1).0@ == self.spec_batch_property_name(
                        sdv,
                        d,
                    ),
            decreases sd@.len() - k2,
        {
            let mut total: usize = 0;
            let mut before: usize = 0;
            let mut j: usize = 0;
            while j < sd.len()
                invariant
                    k2 < sd@.len(),
                    j <= sd@.len(),
                    sdv == ids_view(sd@),
                    names@.len() == sd@.len(),
                    forall|d: int|
                        0 <= d < sd@.len() ==> ((#[trigger] names@[d]).0)@
                            == self.spec_property_name(sdv[d]),
                    total == self.spec_pcount_matching(sdv.take(j as int), sdv[k2 as int]),
                    before == self.spec_pcount_matching(
                        sdv.take(if j <= k2 {
                            j as int
                        } else {
                            k2 as int
                        }),
                        sdv[k2 as int],
                    ),
                    total <= j,
                decreases sd@.len() - j,
            {
                proof {
                    assert(sdv.take(j + 1).drop_last() =~= sdv.take(j as int));
                    assert(sdv.take(j + 1).last() == sdv[j as int]);
                }
                if names[j].0 == names[k2].0 {
                    total = total + 1;
                    if j < k2 {
                        before = before + 1;
                    }
                } else {
                }
                j = j + 1;
            }
            proof {
                assert(sdv.take(sd@.len() as int) =~= sdv);
            }
            let mut value = names[k2].0.clone();
            if total > 1 {
                value.append("_");
                let d = usize_to_dec(before);
                value.append(d.as_str());
                proof {
                    reveal_strlit("_");
                    assert(value@ =~= self.spec_batch_property_name(sdv, k2 as int));
                }
            }
            out.push((sd[k2].clone(), PropertyName(value)));
            k2 = k2 + 1;
        }
        proof {
            assert(ids_view(out@.map_values(|e: (SchemaId, PropertyName)| e.0)) =~= sdv);
        }
        out
    }
}

/// Batch naming depends only on which identifiers are in the batch:
/// re-ordering the input changes nothing.
pub proof fn lemma_locations_deterministic(s1: Seq<IdView>, s2: Seq<IdView>)
    requires
        s1.to_multiset() == s2.to_multiset(),
    ensures
        NameResolver::spec_batch_ids(s1) == NameResolver::spec_batch_ids(s2),
{
    let leq = id_order();
    lemma_id_leq_total_ordering();
    assert(vstd::relations::total_ordering(leq)) by {
        assert(leq == (|x: IdView, y: IdView| id_leq(x, y)));
    }
    s1.lemma_sort_by_ensures(leq);
    s2.lemma_sort_by_ensures(leq);
    vstd::seq_lib::lemma_sorted_unique(s1.sort_by(leq), s2.sort_by(leq), leq);
    assert(s1.sort_by(leq) == s2.sort_by(leq));
}

/// Counting matches over a longer prefix that includes a matching entry
/// strictly grows the count.
proof fn lemma_count_grows(r: &NameResolver, sd: Seq<IdView>, v: IdView, j: int, k: int)
    requires
        0 <= j < k <= sd.len(),
        r.spec_name_value(sd[j]) == r.spec_name_value(v),
    ensures
        r.spec_count_matching(sd.take(j), v) < r.spec_count_matching(sd.take(k), v),
    decreases k,
{
    assert(sd.take(k).drop_last() =~= sd.take(k - 1));
    assert(sd.take(k).last() == sd[k - 1]);
    if k - 1 == j {
        assert(r.spec_count_matching(sd.take(k), v) == r.spec_count_matching(sd.take(j), v) + 1);
    } else {
        lemma_count_grows(r, sd, v, j, k - 1);
    }
}

/// Two identifiers that are strings of the same name differ in their
/// aliases: position suffixes keep batch names collision-free.
pub proof fn lemma_batch_names_unique(r: &NameResolver, sd: Seq<IdView>, j: int, k: int)
    requires
        0 <= j < k < sd.len(),
        r.spec_name_value(sd[j]) == r.spec_name_value(sd[k]),
    ensures
        r.spec_batch_alias(sd, j) is Some,
        r.spec_batch_alias(sd, k) is Some,
        r.spec_batch_alias(sd, j) != r.spec_batch_alias(sd, k),
{
    lemma_count_same_name(r, sd, sd[j], sd[k]);
    lemma_count_grows(r, sd, sd[k], j, k);
    lemma_count_grows(r, sd, sd[j], j, j + 1);
    lemma_count_mono(r, sd, sd[j], j + 1, k);
    lemma_count_grows(r, sd, sd[k], k, k + 1);
    lemma_count_mono(r, sd, sd[k], k + 1, sd.len() as int);
    assert(sd.take(sd.len() as int) =~= sd);
    let rj = r.spec_count_matching(sd.take(j), sd[j]) as int;
    let rk = r.spec_count_matching(sd.take(k), sd[k]) as int;
    assert(r.spec_count_matching(sd.take(j), sd[k]) == r.spec_count_matching(sd.take(j), sd[j]));
    assert(rj < rk);
    let aj = r.spec_name_value(sd[j]) + spec_dec(rj);
    let ak = r.spec_name_value(sd[k]) + spec_dec(rk);
    lemma_dec_injective(rj, rk);
    if aj == ak {
        let n = r.spec_name_value(sd[j]).len() as int;
        assert(spec_dec(rj) =~= aj.skip(n));
        assert(spec_dec(rk) =~= ak.skip(n));
        assert(false);
    }
}

/// Counting matches is monotone in the prefix length.
proof fn lemma_count_mono(r: &NameResolver, sd: Seq<IdView>, v: IdView, a: int, b: int)
    requires
        0 <= a <= b <= sd.len(),
    ensures
        r.spec_count_matching(sd.take(a), v) <= r.spec_count_matching(sd.take(b), v),
    decreases b - a,
{
    if a < b {
        lemma_count_mono(r, sd, v, a, b - 1);
        assert(sd.take(b).drop_last() =~= sd.take(b - 1));
    }
}

/// Matching is by name, so counts agree for identifiers with equal names.
proof fn lemma_count_same_name(r: &NameResolver, sd: Seq<IdView>, u: IdView, v: IdView)
    requires
        r.spec_name_value(u) == r.spec_name_value(v),
    ensures
        forall|m: int|
            0 <= m <= sd.len() ==> r.spec_count_matching(#[trigger] sd.take(m), u)
                == r.spec_count_matching(sd.take(m), v),
    decreases sd.len(),
{
    assert forall|m: int|
        0 <= m <= sd.len() implies r.spec_count_matching(#[trigger] sd.take(m), u)
        == r.spec_count_matching(sd.take(m), v) by {
        lemma_count_same_name_one(r, sd.take(m), u, v);
    }
}

proof fn lemma_count_same_name_one(r: &NameResolver, s: Seq<IdView>, u: IdView, v: IdView)
    requires
        r.spec_name_value(u) == r.spec_name_value(v),
    ensures
        r.spec_count_matching(s, u) == r.spec_count_matching(s, v),
    decreases s.len(),
{
    if s.len() > 0 {
        lemma_count_same_name_one(r, s.drop_last(), u, v);
    }
}

} // verus!
