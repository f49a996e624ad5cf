use vstd::prelude::*;
use crate::bytes::{lower, eq_ignore_case, to_lower};

verus! {

/// Protocol version of a parsed request.
#[derive(Clone, Copy, PartialEq, Eq, Structural, Debug)]
pub enum Version {
    Http10,
    Http11,
}

/// One header entry as received: name case and entry order are preserved.
pub struct Header {
    pub name: Vec<u8>,
    pub value: Vec<u8>,
}

impl View for Header {
    type V = (Seq<u8>, Seq<u8>);

    open spec fn view(&self) -> (Seq<u8>, Seq<u8>) {
        (self.name@, self.value@)
    }
}

/// Mathematical view of a header list.
pub open spec fn headers_view(v: Seq<Header>) -> Seq<(Seq<u8>, Seq<u8>)> {
    v.map_values(|h: Header| h@)
}

/// A fully parsed request. Immutable once built; the worker hands it to the
/// application callback and never mutates it afterwards.
pub struct Request {
    pub method: Vec<u8>,
    pub path: Vec<u8>,
    pub query: Vec<u8>,
    pub version: Version,
    pub headers: Vec<Header>,
    pub body: Vec<u8>,
}

/// Mathematical view of a request.
pub struct ReqView {
    pub method: Seq<u8>,
    pub path: Seq<u8>,
    pub query: Seq<u8>,
    pub version: Version,
    pub headers: Seq<(Seq<u8>, Seq<u8>)>,
    pub body: Seq<u8>,
}

impl View for Request {
    type V = ReqView;

    open spec fn view(&self) -> ReqView {
        ReqView {
            method: self.method@,
            path: self.path@,
            query: self.query@,
            version: self.version,
            headers: headers_view(self.headers@),
            body: self.body@,
        }
    }
}

/// Value of the first header whose lower-cased name is `name`
/// (`name` itself given lower-case), if any.
pub open spec fn header_value_in(headers: Seq<(Seq<u8>, Seq<u8>)>, name: Seq<u8>) -> Option<
    Seq<u8>,
>
    decreases headers.len(),
{
    if headers.len() == 0 {
        None
    } else if lower(headers[0].0) == name {
        Some(headers[0].1)
    } else {
        header_value_in(headers.drop_first(), name)
    }
}

/// Value of the first header whose name equals `name` up to ASCII case.
/// `name` must already be lower-case for the result to match the spec lookup.
pub fn find_header<'a>(headers: &'a Vec<Header>, name: &Vec<u8>) -> (r: Option<&'a Vec<u8>>)
    requires
        lower(name@) == name@,
    ensures
        match r {
            Some(v) => header_value_in(headers_view(headers@), name@) == Some(v@),
            None => header_value_in(headers_view(headers@), name@) is None,
        },
{
    let ghost hv = headers_view(headers@);
    proof {
        assert(hv.skip(0) =~= hv);
    }
    let mut i: usize = 0;
    while i < headers.len()
        invariant
            i <= headers@.len(),
            hv == headers_view(headers@),
            hv.len() == headers@.len(),
            lower(name@) == name@,
            header_value_in(hv, name@) == header_value_in(hv.skip(i as int), name@),
        decreases headers@.len() - i,
    {
        proof {
            assert(hv.skip(i as int)[0] == hv[i as int]);
        }
        if eq_ignore_case(&headers[i].name, name) {
            return Some(&headers[i].value);
        }
        proof {
            assert(hv.skip(i as int).drop_first() =~= hv.skip(i + 1 as int));
        }
        i = i + 1;
    }
    proof {
        assert(hv.skip(i as int) =~= Seq::<(Seq<u8>, Seq<u8>)>::empty());
    }
    None
}

} // verus!
