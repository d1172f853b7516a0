use vstd::prelude::*;
use vstd::string::*;

verus! {

/// What went wrong while resources were gathered.
#[derive(Debug)]
pub enum ResourceManagerError {
    MissingResource(String),
}

impl ResourceManagerError {
    /// The error in words.
    pub fn to_string(&self) -> (r: String)
        ensures
            r@ == match self {
                ResourceManagerError::MissingResource(id) => "Missing resource: "@ + id@,
            },
    {
        match self {
            ResourceManagerError::MissingResource(res_id) => {
                let mut r = String::from_str("Missing resource: ");
                r.append(res_id.as_str());
                r
            },
        }
    }
}

/// The error of an input or output operation of std.
#[verifier::external_type_specification]
#[verifier::external_body]
pub struct ExIoError(std::io::Error);

/// What can read the text of a file without waiting.
pub trait SyncFileFetcher {
    fn fetch_file_sync(&self, path: &str) -> std::io::Result<String>;
}

} // verus!
