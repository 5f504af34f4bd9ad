//! Export configuration: the validated egress destinations.
//!
//! Each destination takes one transform; the same endpoint with two would double-count downstream,
//! so a duplicate endpoint is rejected when the configuration is loaded.
use vstd::prelude::*;
use crate::error::{debug_str, show_str, Error, ErrorModel};
use crate::headers::Headers;
use crate::settings::{
    loaded_settings, parsed_settings, raw_models, settings_doc, storable, ExportTargetRaw, RawTarget,
    Settings, SettingsModel,
};
use crate::table::toml_text;
use crate::text::{
    blank, cat2, cat3, cat4, chars_of, halves, is_blank, is_white, join, joined, list_contains,
    opt_str_view, opt_view, owned, owned_list, pieces, same, split, split_once, string_of, trim, trimmed,
    trimmed_end, trimmed_start, views,
};

verus! {

broadcast use vstd::map::group_map_axioms;

/// The transform applied to a destination's stream.
#[derive(Debug, Clone, Copy, PartialEq, Eq, Structural)]
pub enum ExportMode {
    /// Forward the bytes as they came.
    Raw,
    /// Add the project's label to every datapoint.
    Enriched,
}

impl ExportMode {
    /// The name of a mode.
    pub open spec fn name(self) -> Seq<char> {
        match self {
            ExportMode::Raw => "raw"@,
            ExportMode::Enriched => "enriched"@,
        }
    }

    /// The mode with a name.
    pub open spec fn named(s: Seq<char>) -> Option<ExportMode> {
        if s == "raw"@ {
            Some(ExportMode::Raw)
        } else if s == "enriched"@ {
            Some(ExportMode::Enriched)
        } else {
            None
        }
    }

    /// Read the name of a mode; an unknown one is `None`, never a silent default.
    pub fn parse(s: &str) -> (r: Option<ExportMode>)
        ensures
            r == ExportMode::named(s@),
    {
        if same(s, "raw") {
            Some(ExportMode::Raw)
        } else if same(s, "enriched") {
            Some(ExportMode::Enriched)
        } else {
            None
        }
    }

    /// The name of the mode.
    pub fn as_str(self) -> (r: &'static str)
        ensures
            r@ == self.name(),
    {
        match self {
            ExportMode::Raw => "raw",
            ExportMode::Enriched => "enriched",
        }
    }
}

/// The name of a mode reads back as the mode.
pub proof fn law_mode_names_round_trip(mode: ExportMode)
    ensures
        ExportMode::named(mode.name()) == Some(mode),
{
    reveal_strlit("raw");
    reveal_strlit("enriched");
    assert("raw"@.len() != "enriched"@.len());
}

/// Which projects a destination accepts.
#[derive(Debug, PartialEq, Eq)]
pub enum ProjectFilter {
    /// Every project.
    All,
    /// Only these.
    Only(Vec<String>),
    /// Every project but these.
    Except(Vec<String>),
}

/// Which projects are accepted.
#[verifier::ext_equal]
pub enum FilterModel {
    All,
    Only(Seq<Seq<char>>),
    Except(Seq<Seq<char>>),
}

/// An entry names a project by its label or by its key.
pub open spec fn listed(list: Seq<Seq<char>>, label: Seq<char>, key: Seq<char>) -> bool {
    list.contains(label) || list.contains(key)
}

/// A known project is accepted.
pub open spec fn accepts(f: FilterModel, label: Seq<char>, key: Seq<char>) -> bool {
    match f {
        FilterModel::All => true,
        FilterModel::Only(v) => listed(v, label, key),
        FilterModel::Except(v) => !listed(v, label, key),
    }
}

impl ProjectFilter {
    pub open spec fn model(self) -> FilterModel {
        match self {
            ProjectFilter::All => FilterModel::All,
            ProjectFilter::Only(v) => FilterModel::Only(views(v@)),
            ProjectFilter::Except(v) => FilterModel::Except(views(v@)),
        }
    }

    /// Whether a known project, given by its label and its unique key, is forwarded.
    pub fn allows(&self, label: &str, key: &str) -> (r: bool)
        ensures
            r == accepts(self.model(), label@, key@),
    {
        match self {
            ProjectFilter::All => true,
            ProjectFilter::Only(v) => list_contains(v, label) || list_contains(v, key),
            ProjectFilter::Except(v) => !(list_contains(v, label) || list_contains(v, key)),
        }
    }

    /// Whether the destination restricts by project at all.
    pub fn is_filtered(&self) -> (r: bool)
        ensures
            r == (self.model() != FilterModel::All),
    {
        match self {
            ProjectFilter::All => false,
            _ => true,
        }
    }

    /// A summary for people: `only: a, b` or `except: c`; nothing for an unfiltered destination.
    pub fn describe(&self) -> (r: Option<String>)
        ensures
            opt_view(r) == match self.model() {
                FilterModel::All => None,
                FilterModel::Only(v) => Some("only: "@ + joined(v, ", "@)),
                FilterModel::Except(v) => Some("except: "@ + joined(v, ", "@)),
            },
    {
        match self {
            ProjectFilter::All => None,
            ProjectFilter::Only(v) => Some(cat2("only: ", &join(v, ", "))),
            ProjectFilter::Except(v) => Some(cat2("except: ", &join(v, ", "))),
        }
    }

    fn duplicate(&self) -> (r: ProjectFilter)
        ensures
            r.model() == self.model(),
    {
        match self {
            ProjectFilter::All => ProjectFilter::All,
            ProjectFilter::Only(v) => ProjectFilter::Only(owned_list(v)),
            ProjectFilter::Except(v) => ProjectFilter::Except(owned_list(v)),
        }
    }
}

/// One validated destination.
#[derive(Debug)]
pub struct ExportTarget {
    /// The base endpoint; the path of a signal is appended.
    pub endpoint: String,
    pub mode: ExportMode,
    pub filter: ProjectFilter,
    /// Extra request headers.
    pub headers: Headers,
    /// Per-request timeout in milliseconds; `None` takes the receiver's default.
    pub timeout_ms: Option<u64>,
}

/// What a destination says.
#[verifier::ext_equal]
pub struct TargetModel {
    pub endpoint: Seq<char>,
    pub mode: ExportMode,
    pub filter: FilterModel,
    pub headers: Map<Seq<char>, Seq<char>>,
    pub timeout: Option<u64>,
}

impl ExportTarget {
    pub open spec fn model(self) -> TargetModel {
        TargetModel {
            endpoint: self.endpoint@,
            mode: self.mode,
            filter: self.filter.model(),
            headers: self.headers@,
            timeout: self.timeout_ms,
        }
    }
}

/// The models of a list of destinations.
pub open spec fn target_models(v: Seq<ExportTarget>) -> Seq<TargetModel> {
    Seq::new(v.len(), |i: int| v[i].model())
}

/// The validated set of destinations; an empty one means that export is off.
#[derive(Debug)]
pub struct ExportConfig {
    pub targets: Vec<ExportTarget>,
}

impl Default for ExportConfig {
    fn default() -> (r: ExportConfig)
        ensures
            r.targets@.len() == 0,
    {
        ExportConfig { targets: Vec::new() }
    }
}

// ---------------------------------------------------------------------------------------------
// Endpoints and headers
// ---------------------------------------------------------------------------------------------

/// `s` without the slashes at its end.
pub open spec fn without_slashes(s: Seq<char>) -> Seq<char>
    decreases s.len(),
{
    if s.len() > 0 && s.last() == '/' {
        without_slashes(s.drop_last())
    } else {
        s
    }
}

/// The canonical form of an endpoint.
pub open spec fn normalized(s: Seq<char>) -> Seq<char> {
    without_slashes(trimmed(s))
}

/// The canonical form of an endpoint: without white space around it and slashes at its end, so that
/// equivalent spellings compare equal.
pub fn normalize_endpoint(s: &str) -> (r: String)
    ensures
        r@ == normalized(s@),
{
    let v = chars_of(&trim(s));
    let mut n: usize = v.len();
    assert(v@.take(v.len() as int) =~= v@);
    while n > 0 && v[n - 1] == '/'
        invariant
            0 <= n <= v.len(),
            without_slashes(v@) == without_slashes(v@.take(n as int)),
        decreases n,
    {
        assert(v@.take(n as int).drop_last() =~= v@.take(n - 1));
        n = n - 1;
    }
    let out = string_of(&v, 0, n);
    assert(out@ =~= v@.take(n as int));
    out
}

proof fn lemma_without_slashes(s: Seq<char>)
    ensures
        without_slashes(s).len() <= s.len(),
        without_slashes(s) == s.take(without_slashes(s).len() as int),
        without_slashes(s).len() > 0 ==> without_slashes(s).last() != '/',
    decreases s.len(),
{
    if s.len() > 0 && s.last() == '/' {
        lemma_without_slashes(s.drop_last());
        let n = without_slashes(s).len() as int;
        assert(s.drop_last().take(n) =~= s.take(n));
    } else {
        assert(s.take(s.len() as int) =~= s);
    }
}

proof fn lemma_trimmed_first(s: Seq<char>)
    ensures
        trimmed_start(s).len() > 0 ==> !is_white(trimmed_start(s)[0]),
    decreases s.len(),
{
    if s.len() > 0 && is_white(s[0]) {
        lemma_trimmed_first(s.skip(1));
    }
}

proof fn lemma_trimmed_end_prefix(s: Seq<char>)
    ensures
        trimmed_end(s).len() <= s.len(),
        trimmed_end(s) == s.take(trimmed_end(s).len() as int),
    decreases s.len(),
{
    if s.len() > 0 && is_white(s.last()) {
        lemma_trimmed_end_prefix(s.drop_last());
        let n = trimmed_end(s).len() as int;
        assert(s.drop_last().take(n) =~= s.take(n));
    } else {
        assert(s.take(s.len() as int) =~= s);
    }
}

/// Normalizing an endpoint twice is normalizing it once, unless stripping its slashes leaves white
/// space at its end.
pub proof fn law_normalizing_is_idempotent(s: Seq<char>)
    requires
        normalized(s).len() > 0 ==> !is_white(normalized(s).last()),
    ensures
        normalized(normalized(s)) == normalized(s),
{
    let t = trimmed(s);
    let n = normalized(s);
    lemma_trimmed_first(s);
    lemma_trimmed_end_prefix(trimmed_start(s));
    lemma_without_slashes(t);
    if n.len() > 0 {
        assert(n[0] == t[0]);
        assert(t[0] == trimmed_start(s)[0]);
        assert(trimmed_start(n) == n);
        assert(trimmed_end(n) == n);
    } else {
        assert(n =~= Seq::<char>::empty());
    }
}

/// The pair that one piece of a header list holds; a piece without `=` or without a key holds none.
pub open spec fn header_pair(piece: Seq<char>) -> Option<(Seq<char>, Seq<char>)> {
    match halves(piece, '=') {
        Some(p) => if trimmed(p.0).len() > 0 {
            Some((trimmed(p.0), trimmed(p.1)))
        } else {
            None
        },
        None => None,
    }
}

/// The headers that the pieces of a list hold; a later pair replaces an earlier one.
pub open spec fn header_pairs(list: Seq<Seq<char>>) -> Map<Seq<char>, Seq<char>>
    decreases list.len(),
{
    if list.len() == 0 {
        Map::empty()
    } else {
        let rest = header_pairs(list.drop_last());
        match header_pair(list.last()) {
            Some(p) => rest.insert(p.0, p.1),
            None => rest,
        }
    }
}

/// Parse a header list (`k1=v1,k2=v2`). White space around keys and values is trimmed, and a pair
/// without `=` is skipped.
pub fn parse_otlp_headers(raw: &str) -> (r: Headers)
    ensures
        r@ == header_pairs(pieces(raw@, ',')),
{
    let parts = split(raw, ',');
    let ghost all = views(parts@);
    let mut out = Headers::new();
    let mut i: usize = 0;
    assert(all.take(0) =~= Seq::<Seq<char>>::empty());
    while i < parts.len()
        invariant
            0 <= i <= parts.len(),
            all == views(parts@),
            out@ == header_pairs(all.take(i as int)),
        decreases parts.len() - i,
    {
        proof {
            assert(all.take(i + 1).drop_last() =~= all.take(i as int));
            assert(all.take(i + 1).last() == parts@[i as int]@);
        }
        if let Some((k, v)) = split_once(&parts[i], '=') {
            let key = trim(&k);
            if !key.as_str().is_empty() {
                out.insert(&key, &trim(&v));
            }
        }
        i = i + 1;
    }
    assert(all.take(parts.len() as int) =~= all);
    out
}

// ---------------------------------------------------------------------------------------------
// Validation
// ---------------------------------------------------------------------------------------------

/// The opening of a message about an endpoint.
pub open spec fn about(endpoint: Seq<char>) -> Seq<char> {
    "export endpoint "@ + debug_str(endpoint) + ": "@
}

/// Some entry of a list is blank.
pub open spec fn has_blank(list: Seq<Seq<char>>) -> bool {
    exists|i: int| 0 <= i < list.len() && is_blank(#[trigger] list[i])
}

/// Why a project list is refused: one that is there and empty would be taken for no filter, and a
/// blank entry names no project.
pub open spec fn list_fault(
    endpoint: Seq<char>,
    list: Seq<Seq<char>>,
    what: Seq<char>,
) -> Option<Seq<char>> {
    if list.len() == 0 {
        Some(
            about(endpoint) + "`"@ + what
                + "` is present but empty — list the projects, or remove the key (an empty list has no useful meaning)"@,
        )
    } else if has_blank(list) {
        Some(
            about(endpoint) + "`"@ + what
                + "` contains an empty entry — every entry must be a project label or git-root path"@,
        )
    } else {
        None
    }
}

/// The filter of an entry, or why it is refused.
pub open spec fn filter_of(raw: RawTarget, endpoint: Seq<char>) -> Result<FilterModel, Seq<char>> {
    match (raw.projects, raw.exclude) {
        (None, None) => Ok(FilterModel::All),
        (Some(v), None) => match list_fault(endpoint, v, "projects"@) {
            Some(e) => Err(e),
            None => Ok(FilterModel::Only(v)),
        },
        (None, Some(v)) => match list_fault(endpoint, v, "exclude_projects"@) {
            Some(e) => Err(e),
            None => Ok(FilterModel::Except(v)),
        },
        (Some(_), Some(_)) => Err(
            about(endpoint)
                + "set either `projects` (allow-list) or `exclude_projects`, not both"@,
        ),
    }
}

/// Some destination has the endpoint.
pub open spec fn has_endpoint(targets: Seq<TargetModel>, endpoint: Seq<char>) -> bool {
    exists|i: int| 0 <= i < targets.len() && (#[trigger] targets[i]).endpoint == endpoint
}

/// The destination of an entry that follows `before`, or why it is refused.
pub open spec fn validated_target(
    before: Seq<TargetModel>,
    raw: RawTarget,
) -> Result<TargetModel, Seq<char>> {
    let endpoint = normalized(raw.endpoint);
    if endpoint.len() == 0 {
        Err("an [[export]] target has an empty endpoint"@)
    } else {
        match ExportMode::named(raw.mode) {
            None => Err(
                about(endpoint) + "unknown mode "@ + debug_str(raw.mode)
                    + " (expected raw|enriched)"@,
            ),
            Some(mode) => if has_endpoint(before, endpoint) {
                Err(
                    "duplicate export endpoint "@ + debug_str(endpoint)
                        + " — each destination takes one transform; two to the same endpoint would double-count delta metrics"@,
                )
            } else {
                match filter_of(raw, endpoint) {
                    Err(e) => Err(e),
                    Ok(filter) => Ok(
                        TargetModel {
                            endpoint,
                            mode,
                            filter,
                            headers: raw.headers,
                            timeout: raw.timeout,
                        },
                    ),
                }
            },
        }
    }
}

/// The destinations of a list of entries, or what is wrong with the first bad one.
pub open spec fn validated(raws: Seq<RawTarget>) -> Result<Seq<TargetModel>, Seq<char>>
    decreases raws.len(),
{
    if raws.len() == 0 {
        Ok(Seq::empty())
    } else {
        match validated(raws.drop_last()) {
            Err(e) => Err(e),
            Ok(before) => match validated_target(before, raws.last()) {
                Err(e) => Err(e),
                Ok(t) => Ok(before.push(t)),
            },
        }
    }
}

fn about_text(endpoint: &str) -> (r: String)
    ensures
        r@ == about(endpoint@),
{
    cat3("export endpoint ", &show_str(endpoint), ": ")
}

fn any_blank(list: &Vec<String>) -> (r: bool)
    ensures
        r == has_blank(views(list@)),
{
    let ghost all = views(list@);
    let mut i: usize = 0;
    while i < list.len()
        invariant
            0 <= i <= list.len(),
            all == views(list@),
            forall|k: int| 0 <= k < i ==> !is_blank(#[trigger] all[k]),
        decreases list.len() - i,
    {
        assert(all[i as int] == list@[i as int]@);
        if blank(&list[i]) {
            return true;
        }
        i = i + 1;
    }
    false
}

fn project_list_fault(endpoint: &str, list: &Vec<String>, what: &str) -> (r: Option<String>)
    ensures
        opt_view(r) == list_fault(endpoint@, views(list@), what@),
{
    assert(views(list@).len() == list.len());
    if list.len() == 0 {
        Some(
            cat4(
                &about_text(endpoint),
                "`",
                what,
                "` is present but empty — list the projects, or remove the key (an empty list has no useful meaning)",
            ),
        )
    } else if any_blank(list) {
        Some(
            cat4(
                &about_text(endpoint),
                "`",
                what,
                "` contains an empty entry — every entry must be a project label or git-root path",
            ),
        )
    } else {
        None
    }
}

fn read_filter(raw: &ExportTargetRaw, endpoint: &str) -> (r: Result<ProjectFilter, String>)
    ensures
        match r {
            Ok(f) => filter_of(raw.model(), endpoint@) == Ok::<FilterModel, Seq<char>>(f.model()),
            Err(e) => filter_of(raw.model(), endpoint@) == Err::<FilterModel, Seq<char>>(e@),
        },
{
    match (&raw.projects, &raw.exclude_projects) {
        (None, None) => Ok(ProjectFilter::All),
        (Some(v), None) => match project_list_fault(endpoint, v, "projects") {
            Some(e) => Err(e),
            None => Ok(ProjectFilter::Only(owned_list(v))),
        },
        (None, Some(v)) => match project_list_fault(endpoint, v, "exclude_projects") {
            Some(e) => Err(e),
            None => Ok(ProjectFilter::Except(owned_list(v))),
        },
        (Some(_), Some(_)) => Err(
            cat2(
                &about_text(endpoint),
                "set either `projects` (allow-list) or `exclude_projects`, not both",
            ),
        ),
    }
}

fn find_endpoint(targets: &Vec<ExportTarget>, endpoint: &str) -> (r: usize)
    ensures
        r <= targets.len(),
        r == endpoint_at(target_models(targets@), endpoint@),
        r < targets.len() <==> has_endpoint(target_models(targets@), endpoint@),
{
    let ghost all = target_models(targets@);
    let mut i: usize = 0;
    assert(all.skip(0) =~= all);
    while i < targets.len()
        invariant
            0 <= i <= targets.len(),
            all == target_models(targets@),
            endpoint_at(all, endpoint@) == i + endpoint_at(all.skip(i as int), endpoint@),
            forall|k: int| 0 <= k < i ==> (#[trigger] all[k]).endpoint != endpoint@,
        decreases targets.len() - i,
    {
        assert(all.skip(i as int).skip(1) =~= all.skip(i + 1));
        assert(all[i as int] == targets@[i as int].model());
        if same(&targets[i].endpoint, endpoint) {
            return i;
        }
        i = i + 1;
    }
    i
}

/// The position of the first destination with an endpoint, or the length.
pub open spec fn endpoint_at(targets: Seq<TargetModel>, endpoint: Seq<char>) -> int
    decreases targets.len(),
{
    if targets.len() == 0 || targets[0].endpoint == endpoint {
        0
    } else {
        1 + endpoint_at(targets.skip(1), endpoint)
    }
}

fn validate_target(before: &Vec<ExportTarget>, raw: &ExportTargetRaw) -> (r: Result<
    ExportTarget,
    String,
>)
    ensures
        match r {
            Ok(t) => validated_target(target_models(before@), raw.model()) == Ok::<
                TargetModel,
                Seq<char>,
            >(t.model()),
            Err(e) => validated_target(target_models(before@), raw.model()) == Err::<
                TargetModel,
                Seq<char>,
            >(e@),
        },
{
    let endpoint = normalize_endpoint(&raw.endpoint);
    if endpoint.as_str().is_empty() {
        return Err(owned("an [[export]] target has an empty endpoint"));
    }
    let mode = match ExportMode::parse(&raw.mode) {
        Some(m) => m,
        None => {
            return Err(
                cat4(
                    &about_text(&endpoint),
                    "unknown mode ",
                    &show_str(&raw.mode),
                    " (expected raw|enriched)",
                ),
            );
        },
    };
    if find_endpoint(before, &endpoint) < before.len() {
        return Err(
            cat3(
                "duplicate export endpoint ",
                &show_str(&endpoint),
                " — each destination takes one transform; two to the same endpoint would double-count delta metrics",
            ),
        );
    }
    match read_filter(raw, &endpoint) {
        Ok(filter) => Ok(
            ExportTarget {
                endpoint,
                mode,
                filter,
                headers: raw.headers.duplicate(),
                timeout_ms: raw.timeout_ms,
            },
        ),
        Err(e) => Err(e),
    }
}

proof fn lemma_validated_fail(raws: Seq<RawTarget>, n: int, e: Seq<char>)
    requires
        0 <= n <= raws.len(),
        validated(raws.take(n)) == Err::<Seq<TargetModel>, Seq<char>>(e),
    ensures
        validated(raws) == Err::<Seq<TargetModel>, Seq<char>>(e),
    decreases raws.len() - n,
{
    if n == raws.len() {
        assert(raws.take(n) =~= raws);
    } else {
        assert(raws.take(n + 1).drop_last() =~= raws.take(n));
        lemma_validated_fail(raws, n + 1, e);
    }
}

/// Whether an outcome is the wanted configuration or the wanted error.
pub open spec fn export_agrees(
    r: Result<ExportConfig, Error>,
    want: Result<Seq<TargetModel>, Seq<char>>,
) -> bool {
    match want {
        Ok(t) => r matches Ok(c) && target_models(c.targets@) == t,
        Err(e) => r matches Err(x) && x.model() == ErrorModel::InvalidExport(e),
    }
}

/// The models of validated destinations as file entries.
pub open spec fn raw_of(t: TargetModel) -> RawTarget {
    RawTarget {
        endpoint: t.endpoint,
        mode: t.mode.name(),
        projects: match t.filter {
            FilterModel::Only(v) => Some(v),
            _ => None,
        },
        exclude: match t.filter {
            FilterModel::Except(v) => Some(v),
            _ => None,
        },
        timeout: t.timeout,
        headers: t.headers,
    }
}

pub open spec fn raws_of(t: Seq<TargetModel>) -> Seq<RawTarget> {
    Seq::new(t.len(), |i: int| raw_of(t[i]))
}

/// The destinations with one added, or replaced where its endpoint is already there.
pub open spec fn upserted(targets: Seq<TargetModel>, t: TargetModel) -> Seq<TargetModel> {
    let new = TargetModel { endpoint: normalized(t.endpoint), ..t };
    let at = endpoint_at(targets, new.endpoint);
    if at < targets.len() {
        targets.update(at, new)
    } else {
        targets.push(new)
    }
}

impl ExportConfig {
    /// Turn file entries into destinations. An empty endpoint, an unknown mode, a duplicate
    /// endpoint and a bad project filter are errors.
    pub fn validate(raws: &Vec<ExportTargetRaw>) -> (r: Result<ExportConfig, Error>)
        ensures
            export_agrees(r, validated(raw_models(raws@))),
    {
        let ghost all = raw_models(raws@);
        let mut targets: Vec<ExportTarget> = Vec::new();
        let mut i: usize = 0;
        assert(all.take(0) =~= Seq::<RawTarget>::empty());
        assert(target_models(targets@) =~= Seq::<TargetModel>::empty());
        while i < raws.len()
            invariant
                0 <= i <= raws.len(),
                all == raw_models(raws@),
                validated(all.take(i as int)) == Ok::<Seq<TargetModel>, Seq<char>>(
                    target_models(targets@),
                ),
            decreases raws.len() - i,
        {
            proof {
                assert(all.take(i + 1).drop_last() =~= all.take(i as int));
                assert(all.take(i + 1).last() == raws@[i as int].model());
            }
            match validate_target(&targets, &raws[i]) {
                Ok(t) => {
                    let ghost held = targets@;
                    targets.push(t);
                    assert(target_models(targets@) =~= target_models(held).push(t.model()));
                },
                Err(e) => {
                    proof {
                        lemma_validated_fail(all, i + 1, e@);
                    }
                    return Err(Error::InvalidExport(e));
                },
            }
            i = i + 1;
        }
        assert(all.take(raws.len() as int) =~= all);
        Ok(ExportConfig { targets })
    }

    /// Validate the export section of settings that were already read.
    pub fn from_settings(settings: &Settings) -> (r: Result<ExportConfig, Error>)
        ensures
            export_agrees(r, validated(settings.model().export)),
    {
        ExportConfig::validate(&settings.export)
    }

    /// Validate the export section of a configuration file's text; no file means that export is
    /// off.
    pub fn load(text: Option<&str>, path: &str) -> (r: Result<ExportConfig, Error>)
        ensures
            match text {
                None => r matches Ok(c) && c.targets@.len() == 0,
                Some(text) => match parsed_settings(text@, path@) {
                    Ok(s) => export_agrees(r, validated(s.export)),
                    Err(e) => r matches Err(x) && x.model() == e,
                },
            },
    {
        match text {
            None => Ok(ExportConfig { targets: Vec::new() }),
            Some(text) => match Settings::parse(text, path) {
                Ok(s) => ExportConfig::from_settings(&s),
                Err(e) => Err(e),
            },
        }
    }

    /// Add a destination, or replace the one with the same endpoint.
    pub fn upsert(&mut self, target: ExportTarget)
        ensures
            target_models(final(self).targets@) == upserted(
                target_models(old(self).targets@),
                target.model(),
            ),
    {
        let endpoint = normalize_endpoint(&target.endpoint);
        let at = find_endpoint(&self.targets, &endpoint);
        let ghost held = self.targets@;
        let new = ExportTarget {
            endpoint,
            mode: target.mode,
            filter: target.filter,
            headers: target.headers,
            timeout_ms: target.timeout_ms,
        };
        if at < self.targets.len() {
            self.targets.set(at, new);
            assert(target_models(self.targets@) =~= target_models(held).update(
                at as int,
                new.model(),
            ));
        } else {
            self.targets.push(new);
            assert(target_models(self.targets@) =~= target_models(held).push(new.model()));
        }
    }

    /// The destinations as file entries.
    pub fn to_raw(&self) -> (r: Vec<ExportTargetRaw>)
        ensures
            raw_models(r@) == raws_of(target_models(self.targets@)),
    {
        let mut out: Vec<ExportTargetRaw> = Vec::new();
        let mut i: usize = 0;
        while i < self.targets.len()
            invariant
                0 <= i <= self.targets.len(),
                out.len() == i,
                forall|k: int|
                    0 <= k < i ==> (#[trigger] out@[k]).model() == raw_of(self.targets@[k].model()),
            decreases self.targets.len() - i,
        {
            let t = &self.targets[i];
            let (projects, exclude_projects) = match &t.filter {
                ProjectFilter::All => (None, None),
                ProjectFilter::Only(v) => (Some(owned_list(v)), None),
                ProjectFilter::Except(v) => (None, Some(owned_list(v))),
            };
            out.push(
                ExportTargetRaw {
                    endpoint: owned(&t.endpoint),
                    mode: owned(t.mode.as_str()),
                    projects,
                    exclude_projects,
                    timeout_ms: t.timeout_ms,
                    headers: t.headers.duplicate(),
                },
            );
            i = i + 1;
        }
        assert(raw_models(out@) =~= raws_of(target_models(self.targets@)));
        out
    }

    /// Settings with their export section replaced by these destinations; every other section is
    /// carried through.
    pub fn merged_into(&self, settings: Settings) -> (r: Settings)
        ensures
            r.model() == (SettingsModel {
                export: raws_of(target_models(self.targets@)),
                ..settings.model()
            }),
            r.source@ == settings.source@,
    {
        Settings { plugins: settings.plugins, export: self.to_raw(), source: settings.source }
    }

    /// The text of the configuration file with these destinations in place of its own: of the file
    /// with the text `text`, or of none. A file that does not load is an error, and there is then
    /// nothing to write. What is written reads back, by `Settings::parse`, as these destinations and
    /// the other sections of the file.
    pub fn save(&self, text: Option<&str>, path: &str) -> (r: Result<String, Error>)
        ensures
            match loaded_settings(opt_str_view(text), path@) {
                Err(e) => r matches Err(x) && x.model() == e,
                Ok(m) => {
                    let merged = SettingsModel {
                        export: raws_of(target_models(self.targets@)),
                        ..m
                    };
                    &&& match toml_text(settings_doc(merged)) {
                        Ok(body) => r matches Ok(s) && s@ == body,
                        Err(e) => r matches Err(x) && x.model() == ErrorModel::Io(
                            "serialize config: "@ + e,
                        ),
                    }
                    &&& storable(merged) ==> r is Ok
                },
            },
    {
        let settings = match text {
            Some(t) => match Settings::parse(t, path) {
                Ok(s) => s,
                Err(e) => {
                    return Err(e);
                },
            },
            None => {
                let none = Settings::empty();
                assert(none.model().plugins =~= Seq::<Seq<char>>::empty());
                none
            },
        };
        self.merged_into(settings).to_toml()
    }
}

// ---------------------------------------------------------------------------------------------
// Laws
// ---------------------------------------------------------------------------------------------

/// No two destinations have the same endpoint.
pub open spec fn distinct_endpoints(t: Seq<TargetModel>) -> bool {
    forall|i: int, j: int|
        0 <= i < j < t.len() ==> (#[trigger] t[i]).endpoint != (#[trigger] t[j]).endpoint
}

/// A filter that says something: a list is never empty and has no blank entry.
pub open spec fn sound_filter(f: FilterModel) -> bool {
    match f {
        FilterModel::All => true,
        FilterModel::Only(v) => v.len() > 0 && !has_blank(v),
        FilterModel::Except(v) => v.len() > 0 && !has_blank(v),
    }
}

/// A destination as validation leaves it.
pub open spec fn sound_target(t: TargetModel) -> bool {
    t.endpoint.len() > 0 && sound_filter(t.filter)
}

/// Validated destinations have different endpoints, none is empty, and every filter says something:
/// an empty allow-list never passes for "everything".
pub proof fn law_validated_targets_are_sound(raws: Seq<RawTarget>)
    ensures
        validated(raws) matches Ok(t) ==> t.len() == raws.len() && distinct_endpoints(t)
            && forall|i: int| 0 <= i < t.len() ==> sound_target(#[trigger] t[i]),
    decreases raws.len(),
{
    if raws.len() > 0 {
        law_validated_targets_are_sound(raws.drop_last());
        if let Ok(t) = validated(raws) {
            let before = validated(raws.drop_last())->Ok_0;
            let last = validated_target(before, raws.last())->Ok_0;
            assert(t == before.push(last));
            assert forall|i: int| 0 <= i < t.len() implies sound_target(#[trigger] t[i]) by {
                if i < before.len() {
                    assert(t[i] == before[i]);
                }
            }
            assert forall|i: int, j: int| 0 <= i < j < t.len() implies (#[trigger] t[i]).endpoint
                != (#[trigger] t[j]).endpoint by {
                assert(t[i] == before[i]);
                if j < before.len() {
                    assert(t[j] == before[j]);
                }
            }
        }
    }
}

/// Writing validated destinations out and validating them again gives the same destinations, where
/// every endpoint is in its canonical form.
pub proof fn law_export_round_trip(t: Seq<TargetModel>)
    requires
        distinct_endpoints(t),
        forall|i: int|
            0 <= i < t.len() ==> sound_target(#[trigger] t[i]) && normalized(t[i].endpoint)
                == t[i].endpoint,
    ensures
        validated(raws_of(t)) == Ok::<Seq<TargetModel>, Seq<char>>(t),
    decreases t.len(),
{
    if t.len() > 0 {
        let d = t.drop_last();
        assert forall|i: int| 0 <= i < d.len() implies sound_target(#[trigger] d[i]) && normalized(
            d[i].endpoint,
        ) == d[i].endpoint by {
            assert(d[i] == t[i]);
        }
        assert(distinct_endpoints(d)) by {
            assert forall|i: int, j: int| 0 <= i < j < d.len() implies (#[trigger] d[i]).endpoint
                != (#[trigger] d[j]).endpoint by {
                assert(t[i].endpoint != t[j].endpoint);
            }
        }
        law_export_round_trip(d);
        assert(raws_of(t).drop_last() =~= raws_of(d));
        let last = t.last();
        law_mode_names_round_trip(last.mode);
        assert(sound_target(t[t.len() - 1]));
        assert(!has_endpoint(d, last.endpoint)) by {
            if has_endpoint(d, last.endpoint) {
                let k = choose|k: int|
                    0 <= k < d.len() && (#[trigger] d[k]).endpoint == last.endpoint;
                assert(t[k].endpoint != t[t.len() - 1].endpoint);
            }
        }
        assert(validated_target(d, raw_of(last)) == Ok::<TargetModel, Seq<char>>(last));
        assert(d.push(last) =~= t);
    } else {
        assert(t =~= Seq::<TargetModel>::empty());
        assert(raws_of(t) =~= Seq::<RawTarget>::empty());
    }
}

proof fn lemma_endpoint_at(t: Seq<TargetModel>, e: Seq<char>)
    ensures
        0 <= endpoint_at(t, e) <= t.len(),
        endpoint_at(t, e) < t.len() ==> t[endpoint_at(t, e)].endpoint == e,
        forall|k: int| 0 <= k < endpoint_at(t, e) ==> (#[trigger] t[k]).endpoint != e,
    decreases t.len(),
{
    if t.len() > 0 && t[0].endpoint != e {
        lemma_endpoint_at(t.skip(1), e);
        assert forall|k: int| 0 <= k < endpoint_at(t, e) implies (#[trigger] t[k]).endpoint
            != e by {
            if k > 0 {
                assert(t.skip(1)[k - 1] == t[k]);
            }
        }
    }
}

proof fn lemma_endpoint_is_at(t: Seq<TargetModel>, e: Seq<char>, at: int)
    requires
        0 <= at < t.len(),
        t[at].endpoint == e,
        forall|k: int| 0 <= k < at ==> (#[trigger] t[k]).endpoint != e,
    ensures
        endpoint_at(t, e) == at,
{
    lemma_endpoint_at(t, e);
    if endpoint_at(t, e) > at {
        assert(t[at].endpoint != e);
    }
}

/// Inserting a destination twice is inserting it once, and endpoints that were different stay
/// different.
pub proof fn law_upsert(targets: Seq<TargetModel>, t: TargetModel)
    ensures
        upserted(upserted(targets, t), t) == upserted(targets, t),
        distinct_endpoints(targets) ==> distinct_endpoints(upserted(targets, t)),
        has_endpoint(upserted(targets, t), normalized(t.endpoint)),
{
    let new = TargetModel { endpoint: normalized(t.endpoint), ..t };
    let at = endpoint_at(targets, new.endpoint);
    let once = upserted(targets, t);
    lemma_endpoint_at(targets, new.endpoint);
    assert forall|k: int| 0 <= k < at implies (#[trigger] once[k]).endpoint != new.endpoint by {
        assert(once[k] == targets[k]);
    }
    assert(once[at] == new);
    lemma_endpoint_is_at(once, new.endpoint, at);
    assert(upserted(once, t) =~= once);
    if distinct_endpoints(targets) {
        assert forall|i: int, j: int| 0 <= i < j < once.len() implies (#[trigger] once[i]).endpoint
            != (#[trigger] once[j]).endpoint by {
            if i != at {
                assert(once[i] == targets[i]);
            }
            if j != at {
                assert(once[j] == targets[j]);
            }
            if at < targets.len() {
                assert(targets[i].endpoint != targets[j].endpoint);
            } else if j < targets.len() {
                assert(targets[i].endpoint != targets[j].endpoint);
            }
        }
    }
}

} // verus!
