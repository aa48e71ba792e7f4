use vstd::prelude::*;
use vstd::string::StringExecFns;
use crate::clock::{http_date_of, YEAR_9999_MILLIS};
use crate::text::dec_digits;

verus! {

/// A file response in the making: the ranged bytes and everything the
/// transport puts into the reply's headers.
#[derive(Debug)]
pub struct CachedFile {
    pub data: Vec<u8>,
    pub file_name: String,
    pub size: usize,
    pub modified_millis: u64,
    pub etag: String,
    pub partial: bool,
}

impl CachedFile {
    /// The headers the response carries, in order; the status is 206 for
    /// a ranged read and 200 otherwise.
    pub fn response_headers(&self) -> (r: Vec<(String, String)>)
        requires
            self.modified_millis < YEAR_9999_MILLIS,
        ensures
            r@.len() == 6,
            r@[0].0@ == "Cache-control"@ && r@[0].1@ == "max-age=86400"@,
            r@[1].0@ == "Last-Modified"@ && r@[1].1@ == http_date_of(self.modified_millis),
            r@[2].0@ == "ETag"@ && r@[2].1@ == self.etag@,
            r@[3].0@ == "Content-Type"@ && r@[3].1@ == "application-octetstream"@,
            r@[4].0@ == "Content-Disposition"@ && r@[4].1@ == "attachment; filename=\""@
                + self.file_name@ + "\""@,
            r@[5].0@ == "content-length"@ && r@[5].1@ == dec_digits(self.size as nat),
    {
        let mut headers: Vec<(String, String)> = Vec::new();
        headers.push(
            (String::from_str("Cache-control"), String::from_str("max-age=86400")),
        );
        headers.push(
            (String::from_str("Last-Modified"), crate::clock::format_http_date(self.modified_millis)),
        );
        headers.push((String::from_str("ETag"), self.etag.clone()));
        headers.push(
            (String::from_str("Content-Type"), String::from_str("application-octetstream")),
        );
        let mut disp = String::from_str("attachment; filename=\"");
        disp.append(self.file_name.as_str());
        disp.append("\"");
        headers.push((String::from_str("Content-Disposition"), disp));
        headers.push((String::from_str("content-length"), crate::text::usize_to_string(self.size)));
        headers
    }

    /// The response's status code.
    pub fn status(&self) -> (r: u16)
        ensures
            r == (if self.partial {
                206u16
            } else {
                200u16
            }),
    {
        if self.partial {
            206
        } else {
            200
        }
    }
}

} // verus!
