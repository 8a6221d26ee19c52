//! The operations that a host integrates against: create an engine from one
//! filter list, ask whether a request is blocked, and ask for the cosmetic
//! resources of a page in the shape in which they cross the boundary.

use vstd::prelude::*;
use vstd::string::*;
use std::sync::Arc;
use crate::cosmetic::{byte_views, no_resources, UrlSpecificResources, UrlSpecificResourcesView};
use crate::engine::{
    no_rules, page_request, page_resources, with_list, Engine, EngineView, FilterSet,
};
use crate::network::{decides, lemma_verdict_unique, should_block, MatchResult};
use crate::request::{request_of, Request, RequestView};
use crate::text::{append_bytes, join, joined};

verus! {

/// `,`
pub const COMMA: u8 = 0x2c;

/// A shared, read-only handle to a finalized engine.
pub struct CEngine {
    engine: Arc<Engine>,
}

impl View for CEngine {
    type V = EngineView;

    closed spec fn view(&self) -> EngineView {
        (*self.engine)@
    }
}

impl CEngine {
    /// The engine behind the handle is finalized.
    #[verifier::type_invariant]
    spec fn inv(&self) -> bool {
        (*self.engine)@.ready
    }
}

/// The cosmetic resources of a page as they cross the boundary. An absent
/// field says that there is nothing of its sort.
#[derive(Debug)]
pub struct CUrlSpecificResources {
    /// The selectors to hide, joined by commas.
    pub hide_selectors: Option<Vec<u8>>,
    /// Reserved; always absent.
    pub style_selectors: Option<Vec<Vec<u8>>>,
    /// Reserved; always absent.
    pub exceptions: Option<Vec<Vec<u8>>>,
    /// The script to inject.
    pub injected_script: Option<Vec<u8>>,
    /// Generic hiding is switched off for the page.
    pub generichide: bool,
}

/// What a bundle holds.
pub struct CUrlSpecificResourcesView {
    pub hide_selectors: Option<Seq<u8>>,
    pub style_selectors: Option<Seq<Seq<u8>>>,
    pub exceptions: Option<Seq<Seq<u8>>>,
    pub injected_script: Option<Seq<u8>>,
    pub generichide: bool,
}

impl View for CUrlSpecificResources {
    type V = CUrlSpecificResourcesView;

    open spec fn view(&self) -> CUrlSpecificResourcesView {
        CUrlSpecificResourcesView {
            hide_selectors: match self.hide_selectors {
                Some(v) => Some(v@),
                None => None,
            },
            style_selectors: match self.style_selectors {
                Some(v) => Some(byte_views(v@)),
                None => None,
            },
            exceptions: match self.exceptions {
                Some(v) => Some(byte_views(v@)),
                None => None,
            },
            injected_script: match self.injected_script {
                Some(v) => Some(v@),
                None => None,
            },
            generichide: self.generichide,
        }
    }
}

/// The engine that one filter list gives.
pub open spec fn created_from(text: Seq<u8>) -> EngineView {
    EngineView { ready: true, rules: with_list(no_rules(), text) }
}

/// The URL of the page in a tab, made from the tab's host.
pub open spec fn source_url_for(tab_host: Seq<u8>) -> Seq<u8> {
    "https://".spec_bytes() + tab_host
}

/// The request that a match query stands for: a document request from the
/// tab's page.
pub open spec fn match_request(url: Seq<u8>, tab_host: Seq<u8>) -> Option<RequestView> {
    request_of(url, source_url_for(tab_host), "document".spec_bytes())
}

/// Whether a match query is answered with "block". A URL that is not well
/// formed is not blocked.
pub open spec fn match_answer(engine: EngineView, url: Seq<u8>, tab_host: Seq<u8>) -> bool {
    match match_request(url, tab_host) {
        Some(req) => should_block(engine.rules.blocks, engine.rules.exceptions, req),
        None => false,
    }
}

/// Resources in the shape in which they cross the boundary.
pub open spec fn bundle_of(res: UrlSpecificResourcesView) -> CUrlSpecificResourcesView {
    CUrlSpecificResourcesView {
        hide_selectors: if res.hide_selectors.len() == 0 {
            None
        } else {
            Some(joined(res.hide_selectors, COMMA, res.hide_selectors.len() as int))
        },
        style_selectors: None,
        exceptions: None,
        injected_script: if res.injected_script.len() == 0 {
            None
        } else {
            Some(res.injected_script)
        },
        generichide: res.generichide,
    }
}

/// The resources that a cosmetic query is answered with. For a URL that is
/// not well formed nothing applies.
pub open spec fn cosmetic_answer(engine: EngineView, url: Seq<u8>) -> CUrlSpecificResourcesView {
    bundle_of(
        match page_request(url) {
            Some(page) => page_resources(engine.rules, page),
            None => no_resources(),
        },
    )
}

/// Two engines made from the same filter list give the same verdict on
/// every request and the same resources for every page.
pub proof fn lemma_same_list_same_answers(
    text: Seq<u8>,
    a: EngineView,
    b: EngineView,
    req: RequestView,
    verdict_a: MatchResult,
    verdict_b: MatchResult,
)
    requires
        a == created_from(text),
        b == created_from(text),
        decides(a.rules.blocks, a.rules.exceptions, req, verdict_a),
        decides(b.rules.blocks, b.rules.exceptions, req, verdict_b),
    ensures
        verdict_a == verdict_b,
        page_resources(a.rules, req) == page_resources(b.rules, req),
{
    lemma_verdict_unique(a.rules.blocks, a.rules.exceptions, req, verdict_a, verdict_b);
}

/// Puts resolved resources into the shape in which they cross the boundary.
pub fn bundle(res: UrlSpecificResources) -> (r: CUrlSpecificResources)
    ensures
        r@ == bundle_of(res@),
{
    let UrlSpecificResources { hide_selectors, injected_script, generichide, .. } = res;
    let hide = if hide_selectors.len() == 0 {
        None
    } else {
        Some(join(&hide_selectors, COMMA))
    };
    let script = if injected_script.len() == 0 {
        None
    } else {
        Some(injected_script)
    };
    CUrlSpecificResources {
        hide_selectors: hide,
        style_selectors: None,
        exceptions: None,
        injected_script: script,
        generichide,
    }
}

/// Compiles one filter list into a finalized engine.
pub fn engine_create(rules: &str) -> (handle: CEngine)
    ensures
        handle@ == created_from(rules.spec_bytes()),
{
    let mut set = FilterSet::new();
    let _ = set.add_filter_list(rules);
    CEngine { engine: Arc::new(Engine::from_filter_set(set, true)) }
}

/// Whether the request for `url`, made as a document request from the page
/// at `https://` + `tab_host`, is blocked. The document host is taken for
/// the symmetry of the interface and plays no part in the answer.
pub fn engine_match(engine: &CEngine, url: &str, _host: &str, tab_host: &str) -> (r: bool)
    ensures
        r == match_answer(engine@, url.spec_bytes(), tab_host.spec_bytes()),
{
    proof {
        use_type_invariant(engine);
    }
    let source = append_bytes("https://".as_bytes(), tab_host.as_bytes());
    match Request::from_bytes(url.as_bytes(), source.as_slice(), "document".as_bytes()) {
        Err(_) => false,
        Ok(req) => match engine.engine.check_network_request(&req) {
            Ok(res) => res.is_blocked(),
            Err(_) => false,
        },
    }
}

/// The cosmetic resources of the page at `url`, in the shape in which they
/// cross the boundary.
pub fn engine_url_cosmetic_resources(engine: &CEngine, url: &str) -> (r: CUrlSpecificResources)
    ensures
        r@ == cosmetic_answer(engine@, url.spec_bytes()),
{
    proof {
        use_type_invariant(engine);
    }
    match engine.engine.url_cosmetic_resources(url) {
        Ok(res) => bundle(res),
        Err(_) => CUrlSpecificResources {
            hide_selectors: None,
            style_selectors: None,
            exceptions: None,
            injected_script: None,
            generichide: false,
        },
    }
}

} // verus!
