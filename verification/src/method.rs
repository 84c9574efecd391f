//! HTTP request methods. Routes are registered per method, so the router
//! keeps one trie for each method that has routes.

use vstd::prelude::*;

use crate::chars::str_eq;

verus! {

/// An HTTP request method. Methods outside the well-known set are carried
/// verbatim in `Other`.
#[derive(Clone, Debug, Hash)]
pub enum Method {
    Options,
    Get,
    Head,
    Post,
    Put,
    Patch,
    Delete,
    Trace,
    Connect,
    Other(String),
}

/// What contracts see of a method: the same cases, an `Other` name as its
/// characters.
pub enum MethodV {
    Options,
    Get,
    Head,
    Post,
    Put,
    Patch,
    Delete,
    Trace,
    Connect,
    Other(Seq<char>),
}

impl View for Method {
    type V = MethodV;

    open spec fn view(&self) -> MethodV {
        match self {
            Method::Options => MethodV::Options,
            Method::Get => MethodV::Get,
            Method::Head => MethodV::Head,
            Method::Post => MethodV::Post,
            Method::Put => MethodV::Put,
            Method::Patch => MethodV::Patch,
            Method::Delete => MethodV::Delete,
            Method::Trace => MethodV::Trace,
            Method::Connect => MethodV::Connect,
            Method::Other(s) => MethodV::Other(s@),
        }
    }
}

impl PartialEq for Method {
    fn eq(&self, other: &Method) -> (r: bool) {
        match (self, other) {
            (Method::Options, Method::Options) => true,
            (Method::Get, Method::Get) => true,
            (Method::Head, Method::Head) => true,
            (Method::Post, Method::Post) => true,
            (Method::Put, Method::Put) => true,
            (Method::Patch, Method::Patch) => true,
            (Method::Delete, Method::Delete) => true,
            (Method::Trace, Method::Trace) => true,
            (Method::Connect, Method::Connect) => true,
            (Method::Other(a), Method::Other(b)) => str_eq(a.as_str(), b.as_str()),
            _ => false,
        }
    }
}

impl vstd::std_specs::cmp::PartialEqSpecImpl for Method {
    open spec fn obeys_eq_spec() -> bool {
        true
    }

    open spec fn eq_spec(&self, other: &Method) -> bool {
        self@ == other@
    }
}

/// The method a request line names: the well-known token, or `Other` with
/// the name kept as given.
pub open spec fn method_from_spec(s: Seq<char>) -> MethodV {
    if s == "OPTIONS"@ {
        MethodV::Options
    } else if s == "GET"@ {
        MethodV::Get
    } else if s == "HEAD"@ {
        MethodV::Head
    } else if s == "POST"@ {
        MethodV::Post
    } else if s == "PUT"@ {
        MethodV::Put
    } else if s == "PATCH"@ {
        MethodV::Patch
    } else if s == "DELETE"@ {
        MethodV::Delete
    } else if s == "TRACE"@ {
        MethodV::Trace
    } else if s == "CONNECT"@ {
        MethodV::Connect
    } else {
        MethodV::Other(s)
    }
}

impl Method {
    /// Reads a method token, mapping the nine well-known names and keeping
    /// any other token as `Other`.
    pub fn from_token(s: &str) -> (m: Method)
        ensures
            m@ == method_from_spec(s@),
    {
        if str_eq(s, "OPTIONS") {
            Method::Options
        } else if str_eq(s, "GET") {
            Method::Get
        } else if str_eq(s, "HEAD") {
            Method::Head
        } else if str_eq(s, "POST") {
            Method::Post
        } else if str_eq(s, "PUT") {
            Method::Put
        } else if str_eq(s, "PATCH") {
            Method::Patch
        } else if str_eq(s, "DELETE") {
            Method::Delete
        } else if str_eq(s, "TRACE") {
            Method::Trace
        } else if str_eq(s, "CONNECT") {
            Method::Connect
        } else {
            Method::Other(s.to_owned())
        }
    }
}

impl<'a> From<&'a str> for Method {
    fn from(s: &'a str) -> (m: Method)
        ensures
            m@ == method_from_spec(s@),
    {
        Method::from_token(s)
    }
}

impl<'a> vstd::std_specs::convert::FromSpecImpl<&'a str> for Method {
    open spec fn obeys_from_spec() -> bool {
        false
    }

    open spec fn from_spec(s: &'a str) -> Method {
        arbitrary()
    }
}

} // verus!
