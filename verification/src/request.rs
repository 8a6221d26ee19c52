//! Requests: the URL being fetched, the page that asked for it, and the kind
//! of resource asked for.

use vstd::prelude::*;
use vstd::string::*;
use crate::text::{bytes_eq, copy_bytes, lower, to_lower};
use crate::url::{
    find_registrable_start, host_end, host_of, host_start, parse_url, registrable, same_site,
    well_formed_url,
};

verus! {

/// The kind of resource a request asks for.
#[derive(Clone, Copy, Debug, PartialEq, Eq, Structural)]
pub enum ResourceType {
    Document,
    Subdocument,
    Script,
    Image,
    Stylesheet,
    Object,
    XmlHttpRequest,
    Font,
    Media,
    Websocket,
    Ping,
    Other,
}

/// Why a request could not be built.
#[derive(Clone, Copy, Debug, PartialEq, Eq, Structural)]
pub enum RequestError {
    /// The request URL is not a well-formed absolute URL.
    InvalidRequest,
}

/// The resource type that a label names, if it names one.
pub open spec fn resource_type_of(label: Seq<u8>) -> Option<ResourceType> {
    if label == "document".spec_bytes() {
        Some(ResourceType::Document)
    } else if label == "subdocument".spec_bytes() {
        Some(ResourceType::Subdocument)
    } else if label == "script".spec_bytes() {
        Some(ResourceType::Script)
    } else if label == "image".spec_bytes() {
        Some(ResourceType::Image)
    } else if label == "stylesheet".spec_bytes() {
        Some(ResourceType::Stylesheet)
    } else if label == "object".spec_bytes() {
        Some(ResourceType::Object)
    } else if label == "xmlhttprequest".spec_bytes() {
        Some(ResourceType::XmlHttpRequest)
    } else if label == "font".spec_bytes() {
        Some(ResourceType::Font)
    } else if label == "media".spec_bytes() {
        Some(ResourceType::Media)
    } else if label == "websocket".spec_bytes() {
        Some(ResourceType::Websocket)
    } else if label == "ping".spec_bytes() {
        Some(ResourceType::Ping)
    } else if label == "other".spec_bytes() {
        Some(ResourceType::Other)
    } else {
        None
    }
}

/// The resource type of a request label; a label that names none is `Other`.
pub open spec fn request_type_of(label: Seq<u8>) -> ResourceType {
    match resource_type_of(label) {
        Some(t) => t,
        None => ResourceType::Other,
    }
}

/// The resource type that a label names, if it names one.
pub fn parse_resource_type(label: &[u8]) -> (r: Option<ResourceType>)
    ensures
        r == resource_type_of(label@),
{
    if bytes_eq(label, "document".as_bytes()) {
        Some(ResourceType::Document)
    } else if bytes_eq(label, "subdocument".as_bytes()) {
        Some(ResourceType::Subdocument)
    } else if bytes_eq(label, "script".as_bytes()) {
        Some(ResourceType::Script)
    } else if bytes_eq(label, "image".as_bytes()) {
        Some(ResourceType::Image)
    } else if bytes_eq(label, "stylesheet".as_bytes()) {
        Some(ResourceType::Stylesheet)
    } else if bytes_eq(label, "object".as_bytes()) {
        Some(ResourceType::Object)
    } else if bytes_eq(label, "xmlhttprequest".as_bytes()) {
        Some(ResourceType::XmlHttpRequest)
    } else if bytes_eq(label, "font".as_bytes()) {
        Some(ResourceType::Font)
    } else if bytes_eq(label, "media".as_bytes()) {
        Some(ResourceType::Media)
    } else if bytes_eq(label, "websocket".as_bytes()) {
        Some(ResourceType::Websocket)
    } else if bytes_eq(label, "ping".as_bytes()) {
        Some(ResourceType::Ping)
    } else if bytes_eq(label, "other".as_bytes()) {
        Some(ResourceType::Other)
    } else {
        None
    }
}

/// One query to the network matcher.
pub struct Request {
    url: Vec<u8>,
    host_start: usize,
    host_end: usize,
    source_host: Vec<u8>,
    third_party: bool,
    request_type: ResourceType,
}

/// What a request is, as the matcher sees it.
pub struct RequestView {
    /// The request URL, lower-cased.
    pub url: Seq<u8>,
    /// Where the host begins in `url`.
    pub host_start: int,
    /// Where the host ends in `url`.
    pub host_end: int,
    /// The host of the page that made the request; empty when it is unknown.
    pub source_host: Seq<u8>,
    /// The request and the page have different registrable domains.
    pub third_party: bool,
    /// The kind of resource asked for.
    pub request_type: ResourceType,
}

impl RequestView {
    /// The host of the request URL.
    pub open spec fn host(self) -> Seq<u8> {
        self.url.subrange(self.host_start, self.host_end)
    }

    /// The host lies inside the URL.
    pub open spec fn wf(self) -> bool {
        0 <= self.host_start <= self.host_end <= self.url.len()
    }
}

/// The host of the page at `source`, or the empty host when `source` is no
/// well-formed URL.
pub open spec fn source_host_of(source: Seq<u8>) -> Seq<u8> {
    if well_formed_url(lower(source)) {
        host_of(lower(source))
    } else {
        Seq::<u8>::empty()
    }
}

/// The request that three texts describe, if the request URL is well formed.
///
/// URLs are compared without regard to ASCII case. A request is third-party
/// when the registrable domains of its host and of the page's host differ;
/// with an unknown page it is third-party.
pub open spec fn request_of(url: Seq<u8>, source: Seq<u8>, label: Seq<u8>) -> Option<RequestView> {
    let u = lower(url);
    if well_formed_url(u) {
        Some(
            RequestView {
                url: u,
                host_start: host_start(u),
                host_end: host_end(u),
                source_host: source_host_of(source),
                third_party: registrable(host_of(u)) != registrable(source_host_of(source)),
                request_type: request_type_of(label),
            },
        )
    } else {
        None
    }
}

impl View for Request {
    type V = RequestView;

    closed spec fn view(&self) -> RequestView {
        RequestView {
            url: self.url@,
            host_start: self.host_start as int,
            host_end: self.host_end as int,
            source_host: self.source_host@,
            third_party: self.third_party,
            request_type: self.request_type,
        }
    }
}

impl Request {
    /// The host lies inside the URL.
    #[verifier::type_invariant]
    spec fn inv(&self) -> bool {
        self.host_start <= self.host_end <= self.url@.len()
    }

    /// Builds a request from byte strings.
    ///
    /// Fails exactly when `url` is not a well-formed absolute URL. A `source`
    /// that is not well formed stands for an unknown page.
    pub fn from_bytes(url: &[u8], source: &[u8], label: &[u8]) -> (r: Result<Request, RequestError>)
        ensures
            match r {
                Ok(q) => Some(q@) == request_of(url@, source@, label@) && q@.wf(),
                Err(e) => request_of(url@, source@, label@) is None && e
                    == RequestError::InvalidRequest,
            },
    {
        let u = to_lower(url);
        match parse_url(u.as_slice()) {
            None => Err(RequestError::InvalidRequest),
            Some(span) => {
                let s = to_lower(source);
                let source_host = match parse_url(s.as_slice()) {
                    Some(sspan) => copy_bytes(&s.as_slice()[sspan.0..sspan.1]),
                    None => Vec::new(),
                };
                let same = same_site(&u.as_slice()[span.0..span.1], source_host.as_slice());
                let request_type = match parse_resource_type(label) {
                    Some(t) => t,
                    None => ResourceType::Other,
                };
                Ok(
                    Request {
                        url: u,
                        host_start: span.0,
                        host_end: span.1,
                        source_host,
                        third_party: !same,
                        request_type,
                    },
                )
            },
        }
    }

    /// Builds a request from the request URL, the URL of the page that made
    /// it, and the label of the resource type.
    pub fn new(url: &str, source_url: &str, request_type: &str) -> (r: Result<
        Request,
        RequestError,
    >)
        ensures
            match r {
                Ok(q) => Some(q@) == request_of(
                    url.spec_bytes(),
                    source_url.spec_bytes(),
                    request_type.spec_bytes(),
                ) && q@.wf(),
                Err(e) => request_of(
                    url.spec_bytes(),
                    source_url.spec_bytes(),
                    request_type.spec_bytes(),
                ) is None && e == RequestError::InvalidRequest,
            },
    {
        Request::from_bytes(url.as_bytes(), source_url.as_bytes(), request_type.as_bytes())
    }

    /// The request URL, lower-cased.
    pub fn url(&self) -> (r: &[u8])
        ensures
            r@ == self@.url,
    {
        self.url.as_slice()
    }

    /// The host range inside the URL.
    pub fn host_span(&self) -> (r: (usize, usize))
        ensures
            r.0 == self@.host_start,
            r.1 == self@.host_end,
            self@.wf(),
    {
        proof {
            use_type_invariant(self);
        }
        (self.host_start, self.host_end)
    }

    /// The host of the page that made the request.
    pub fn source_host(&self) -> (r: &[u8])
        ensures
            r@ == self@.source_host,
    {
        self.source_host.as_slice()
    }

    /// The host of the request URL.
    pub fn hostname(&self) -> (r: &[u8])
        ensures
            r@ == self@.host(),
    {
        proof {
            use_type_invariant(self);
        }
        &self.url.as_slice()[self.host_start..self.host_end]
    }

    /// The registrable domain of the request URL's host.
    pub fn domain(&self) -> (r: &[u8])
        ensures
            r@ == registrable(self@.host()),
    {
        let host = self.hostname();
        let start = find_registrable_start(host);
        &host[start..host.len()]
    }

    /// The registrable domain of the page's host; empty when the page is unknown.
    pub fn source_domain(&self) -> (r: &[u8])
        ensures
            r@ == registrable(self@.source_host),
    {
        let host = self.source_host.as_slice();
        let start = find_registrable_start(host);
        &host[start..host.len()]
    }

    /// Whether the request goes to another site than the page's.
    pub fn is_third_party(&self) -> (r: bool)
        ensures
            r == self@.third_party,
    {
        self.third_party
    }

    /// The kind of resource asked for.
    pub fn request_type(&self) -> (r: ResourceType)
        ensures
            r == self@.request_type,
    {
        self.request_type
    }
}

} // verus!
