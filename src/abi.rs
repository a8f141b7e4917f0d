//! The capability set every provider implements, and the names under which a
//! sandboxed plugin exports it.
use vstd::prelude::*;

verus! {

/// Identity and metadata that a provider reports about itself.
pub struct ProviderDescriptor {
    pub id: i64,
    pub name: String,
    pub version: String,
    pub icon: String,
    pub requires_login: bool,
}

impl ProviderDescriptor {
    /// A field-for-field copy.
    pub fn duplicate(&self) -> (r: ProviderDescriptor)
        ensures
            r == *self,
    {
        ProviderDescriptor {
            id: self.id,
            name: self.name.clone(),
            version: self.version.clone(),
            icon: self.icon.clone(),
            requires_login: self.requires_login,
        }
    }
}

/// One entry point of the capability set.
#[derive(Clone, Copy, Debug, PartialEq, Eq, Structural)]
pub enum Capability {
    SourceInfo,
    FilterList,
    Preferences,
    Popular,
    Latest,
    Search,
    Detail,
    Chapters,
    Pages,
}

/// The export name of each capability in a plugin binary.
pub open spec fn export_name(c: Capability) -> Seq<char> {
    match c {
        Capability::SourceInfo => "source_info"@,
        Capability::FilterList => "filter_list"@,
        Capability::Preferences => "preferences"@,
        Capability::Popular => "popular"@,
        Capability::Latest => "latest"@,
        Capability::Search => "search"@,
        Capability::Detail => "detail"@,
        Capability::Chapters => "chapters"@,
        Capability::Pages => "pages"@,
    }
}

/// Whether `exports` holds the export name of `c`.
pub open spec fn exports_capability(exports: Seq<String>, c: Capability) -> bool {
    exists|i: int| 0 <= i < exports.len() && #[trigger] exports[i]@ == export_name(c)
}

/// Whether `exports` holds the whole capability set.
pub open spec fn exports_complete(exports: Seq<String>) -> bool {
    forall|c: Capability| exports_capability(exports, c)
}

/// Every capability, in the order of the capability set.
pub open spec fn capability_order() -> Seq<Capability> {
    seq![
        Capability::SourceInfo,
        Capability::FilterList,
        Capability::Preferences,
        Capability::Popular,
        Capability::Latest,
        Capability::Search,
        Capability::Detail,
        Capability::Chapters,
        Capability::Pages,
    ]
}

pub open spec fn lacks(exports: Seq<String>) -> spec_fn(Capability) -> bool {
    |c: Capability| !exports_capability(exports, c)
}

impl Capability {
    /// The name under which a plugin exports this capability.
    pub fn export_name(&self) -> (r: &'static str)
        ensures
            r@ == export_name(*self),
    {
        match self {
            Capability::SourceInfo => "source_info",
            Capability::FilterList => "filter_list",
            Capability::Preferences => "preferences",
            Capability::Popular => "popular",
            Capability::Latest => "latest",
            Capability::Search => "search",
            Capability::Detail => "detail",
            Capability::Chapters => "chapters",
            Capability::Pages => "pages",
        }
    }

    /// Every capability, once each.
    pub fn all() -> (r: Vec<Capability>)
        ensures
            r@ == capability_order(),
            forall|c: Capability| r@.contains(c),
    {
        let r = vec![
            Capability::SourceInfo,
            Capability::FilterList,
            Capability::Preferences,
            Capability::Popular,
            Capability::Latest,
            Capability::Search,
            Capability::Detail,
            Capability::Chapters,
            Capability::Pages,
        ];
        assert forall|c: Capability| r@.contains(c) by {
            match c {
                Capability::SourceInfo => assert(r@[0] == c),
                Capability::FilterList => assert(r@[1] == c),
                Capability::Preferences => assert(r@[2] == c),
                Capability::Popular => assert(r@[3] == c),
                Capability::Latest => assert(r@[4] == c),
                Capability::Search => assert(r@[5] == c),
                Capability::Detail => assert(r@[6] == c),
                Capability::Chapters => assert(r@[7] == c),
                Capability::Pages => assert(r@[8] == c),
            }
        }
        assert(r@ =~= capability_order());
        r
    }
}

/// Whether `exports` names capability `c`.
pub fn has_export(exports: &Vec<String>, c: Capability) -> (r: bool)
    ensures
        r == exports_capability(exports@, c),
{
    let target = c.export_name().to_owned();
    let mut i: usize = 0;
    while i < exports.len()
        invariant
            i <= exports@.len(),
            target@ == export_name(c),
            forall|j: int| 0 <= j < i ==> exports@[j]@ != export_name(c),
        decreases exports@.len() - i,
    {
        if exports[i] == target {
            return true;
        }
        i = i + 1;
    }
    false
}

/// The capabilities that `exports` lacks, in the order of the capability set.
pub fn missing_exports(exports: &Vec<String>) -> (r: Vec<Capability>)
    ensures
        r@ == capability_order().filter(lacks(exports@)),
        forall|c: Capability| r@.contains(c) <==> !exports_capability(exports@, c),
        r@.len() == 0 <==> exports_complete(exports@),
{
    let all = Capability::all();
    let mut r: Vec<Capability> = Vec::new();
    let mut i: usize = 0;
    while i < all.len()
        invariant
            i <= all@.len(),
            forall|c: Capability| all@.contains(c),
            all@ == capability_order(),
            r@ == all@.take(i as int).filter(lacks(exports@)),
            forall|k: int| 0 <= k < r@.len() ==> !exports_capability(exports@, #[trigger] r@[k]),
            forall|j: int|
                0 <= j < i && !exports_capability(exports@, #[trigger] all@[j]) ==> r@.contains(
                    all@[j],
                ),
        decreases all@.len() - i,
    {
        let c = all[i];
        let ghost before = r@;
        if !has_export(exports, c) {
            r.push(c);
        }
        proof {
            assert(all@.take(i + 1) =~= all@.take(i as int).push(c));
            all@.take(i as int).lemma_filter_push(c, lacks(exports@));
        }
        assert forall|j: int|
            0 <= j < i + 1 && !exports_capability(exports@, #[trigger] all@[j]) implies r@.contains(
                all@[j],
            ) by {
            if j < i {
                let k = choose|k: int| 0 <= k < before.len() && before[k] == all@[j];
                assert(r@[k] == all@[j]);
            } else {
                assert(r@[r@.len() - 1] == all@[j]);
            }
        }
        i = i + 1;
    }
    assert(all@.take(i as int) =~= all@);
    assert forall|c: Capability| #[trigger] r@.contains(c) implies !exports_capability(exports@, c) by {
        let k = choose|k: int| 0 <= k < r@.len() && r@[k] == c;
        assert(!exports_capability(exports@, r@[k]));
    }
    assert forall|c: Capability| !exports_capability(exports@, c) implies r@.contains(c) by {
        assert(all@.contains(c));
        let j = choose|j: int| 0 <= j < all@.len() && all@[j] == c;
        assert(!exports_capability(exports@, all@[j]));
    }
    if r.len() == 0 {
        assert forall|c: Capability| exports_capability(exports@, c) by {
            if !exports_capability(exports@, c) {
                assert(r@.contains(c));
            }
        }
    } else {
        assert(!exports_capability(exports@, r@[0]));
    }
    r
}

/// A capability call with its arguments.
pub enum CapabilityCall {
    SourceInfo,
    FilterList,
    Preferences,
    Popular { page: i64 },
    Latest { page: i64 },
    Search { page: i64, query: Option<String>, filters: Option<Vec<u8>> },
    Detail { path: String },
    Chapters { path: String },
    Pages { path: String },
}

/// A capability call as its contracts see it.
pub enum CallView {
    SourceInfo,
    FilterList,
    Preferences,
    Popular(i64),
    Latest(i64),
    Search(i64, Option<Seq<char>>, Option<Seq<u8>>),
    Detail(Seq<char>),
    Chapters(Seq<char>),
    Pages(Seq<char>),
}

pub open spec fn call_capability(c: CallView) -> Capability {
    match c {
        CallView::SourceInfo => Capability::SourceInfo,
        CallView::FilterList => Capability::FilterList,
        CallView::Preferences => Capability::Preferences,
        CallView::Popular(_) => Capability::Popular,
        CallView::Latest(_) => Capability::Latest,
        CallView::Search(..) => Capability::Search,
        CallView::Detail(_) => Capability::Detail,
        CallView::Chapters(_) => Capability::Chapters,
        CallView::Pages(_) => Capability::Pages,
    }
}

impl View for CapabilityCall {
    type V = CallView;

    open spec fn view(&self) -> CallView {
        match self {
            CapabilityCall::SourceInfo => CallView::SourceInfo,
            CapabilityCall::FilterList => CallView::FilterList,
            CapabilityCall::Preferences => CallView::Preferences,
            CapabilityCall::Popular { page } => CallView::Popular(*page),
            CapabilityCall::Latest { page } => CallView::Latest(*page),
            CapabilityCall::Search { page, query, filters } => CallView::Search(
                *page,
                match query {
                    Some(q) => Some(q@),
                    None => None,
                },
                match filters {
                    Some(f) => Some(f@),
                    None => None,
                },
            ),
            CapabilityCall::Detail { path } => CallView::Detail(path@),
            CapabilityCall::Chapters { path } => CallView::Chapters(path@),
            CapabilityCall::Pages { path } => CallView::Pages(path@),
        }
    }
}

impl CapabilityCall {
    /// The entry point this call goes to.
    pub fn capability(&self) -> (r: Capability)
        ensures
            r == call_capability(self@),
            r == match self {
                CapabilityCall::SourceInfo => Capability::SourceInfo,
                CapabilityCall::FilterList => Capability::FilterList,
                CapabilityCall::Preferences => Capability::Preferences,
                CapabilityCall::Popular { .. } => Capability::Popular,
                CapabilityCall::Latest { .. } => Capability::Latest,
                CapabilityCall::Search { .. } => Capability::Search,
                CapabilityCall::Detail { .. } => Capability::Detail,
                CapabilityCall::Chapters { .. } => Capability::Chapters,
                CapabilityCall::Pages { .. } => Capability::Pages,
            },
    {
        match self {
            CapabilityCall::SourceInfo => Capability::SourceInfo,
            CapabilityCall::FilterList => Capability::FilterList,
            CapabilityCall::Preferences => Capability::Preferences,
            CapabilityCall::Popular { .. } => Capability::Popular,
            CapabilityCall::Latest { .. } => Capability::Latest,
            CapabilityCall::Search { .. } => Capability::Search,
            CapabilityCall::Detail { .. } => Capability::Detail,
            CapabilityCall::Chapters { .. } => Capability::Chapters,
            CapabilityCall::Pages { .. } => Capability::Pages,
        }
    }
}

/// The capability set as a provider linked into the process implements it.
/// Results travel in the same encoding as those of sandboxed providers.
pub trait Extension {
    fn get_source_info(&self) -> ProviderDescriptor;

    fn get_filter_list(&self) -> Result<Vec<u8>, ExtensionError>;

    fn get_preferences(&self) -> Result<Vec<u8>, ExtensionError>;

    fn get_popular_manga(&self, page: i64) -> Result<Vec<u8>, ExtensionError>;

    fn get_latest_manga(&self, page: i64) -> Result<Vec<u8>, ExtensionError>;

    fn search_manga(&self, page: i64, query: Option<String>, filters: Option<Vec<u8>>) -> Result<
        Vec<u8>,
        ExtensionError,
    >;

    fn get_manga_detail(&self, path: String) -> Result<Vec<u8>, ExtensionError>;

    fn get_chapters(&self, path: String) -> Result<Vec<u8>, ExtensionError>;

    fn get_pages(&self, path: String) -> Result<Vec<u8>, ExtensionError>;
}

/// The error taxonomy that callers of a provider see.
#[derive(Clone, Copy, Debug, PartialEq, Eq, Structural)]
pub enum ExtensionError {
    /// The plugin binary lacks part of the capability set or would not instantiate.
    LoadFailure,
    /// No provider is registered under the requested id.
    NotFound,
    /// The guest trapped or panicked during the call.
    ExtensionFault,
    /// The provider does not implement this capability.
    Unsupported,
    /// The provider ran the call and reported a failure of its own.
    ProviderError,
    /// The caller stopped waiting for the reply.
    Timeout,
    /// Another provider already holds this id.
    IdInUse,
}

} // verus!
