//! Loading of single nodes.

use vstd::prelude::*;
use crate::resource::ResourceError;

verus! {

/// Why a node could not be loaded.
#[derive(Debug)]
pub enum LoaderError {
    /// A resource could not be had.
    Resource(ResourceError),
}

/// Loads the nodes of the cloud under one URL.
#[derive(Clone, Debug)]
pub struct NodeLoader {
    url: String,
}

impl NodeLoader {
    /// The URL of the cloud.
    pub closed spec fn spec_url(&self) -> Seq<char> {
        self.url@
    }

    /// A loader for the cloud under `url`.
    pub fn new(url: String) -> (loader: NodeLoader)
        ensures
            loader.spec_url() == url@,
    {
        Self { url }
    }

    /// The URL of the cloud.
    pub fn url(&self) -> (url: &String)
        ensures
            url@ == self.spec_url(),
    {
        &self.url
    }
}

} // verus!
