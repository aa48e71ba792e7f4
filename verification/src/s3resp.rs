use vstd::prelude::*;
use vstd::string::StringExecFns;

verus! {

/// The shape of an HTTP response the service sends: status, headers,
/// body. The transport turns it into wire form.
#[derive(Debug)]
pub struct S3Response {
    pub body: String,
    pub headers: Vec<(String, String)>,
    pub status: u16,
}

impl S3Response {
    pub fn ok() -> (r: Self)
        ensures
            r.status == 200,
            r.body@ == Seq::<char>::empty(),
            r.headers@.len() == 0,
    {
        S3Response { body: String::new(), headers: Vec::new(), status: 200 }
    }

    pub fn not_found() -> (r: Self)
        ensures
            r.status == 404,
            r.body@ == Seq::<char>::empty(),
            r.headers@.len() == 0,
    {
        S3Response { body: String::new(), headers: Vec::new(), status: 404 }
    }

    pub fn invalid_request() -> (r: Self)
        ensures
            r.status == 400,
            r.body@ == Seq::<char>::empty(),
            r.headers@.len() == 0,
    {
        S3Response { body: String::new(), headers: Vec::new(), status: 400 }
    }

    pub fn server_error() -> (r: Self)
        ensures
            r.status == 500,
            r.body@ == Seq::<char>::empty(),
            r.headers@.len() == 0,
    {
        S3Response { body: String::new(), headers: Vec::new(), status: 500 }
    }

    /// Appends one header.
    pub fn add_header(&mut self, key: &str, value: &str)
        ensures
            final(self).headers@.len() == old(self).headers@.len() + 1,
            final(self).headers@.last().0@ == key@,
            final(self).headers@.last().1@ == value@,
            forall|i: int|
                0 <= i < old(self).headers@.len() ==> final(self).headers@[i] == old(
                    self,
                ).headers@[i],
            final(self).body == old(self).body,
            final(self).status == old(self).status,
    {
        self.headers.push((String::from_str(key), String::from_str(value)));
    }

    /// Sets the status code.
    pub fn status_code(&mut self, code: u16)
        ensures
            final(self).status == code,
            final(self).body == old(self).body,
            final(self).headers == old(self).headers,
    {
        self.status = code;
    }

    /// Sets the body.
    pub fn body(&mut self, text: &str)
        ensures
            final(self).body@ == text@,
            final(self).status == old(self).status,
            final(self).headers == old(self).headers,
    {
        self.body = String::from_str(text);
    }
}

} // verus!
