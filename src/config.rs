//! Where a store's files lie inside its home directory.
use vstd::prelude::*;

use crate::store::{join_path, joined};
use crate::{CONFIG_NAME, STORE_DIRECTORY};

verus! {

/// Directory name for temporary files inside a store's home.
pub const TEMPLATE_DIR: &'static str = "tmp";

/// The home directory of a store.
#[derive(Debug)]
pub struct HbxConfig {
    path: String,
}

impl HbxConfig {
    pub closed spec fn path_view(&self) -> Seq<char> {
        self.path@
    }

    pub fn new(path: String) -> (r: HbxConfig)
        ensures
            r.path_view() == path@,
    {
        HbxConfig { path }
    }

    pub fn path(&self) -> (r: &String)
        ensures
            r@ == self.path_view(),
    {
        &self.path
    }

    pub fn config_path(&self) -> (r: String)
        ensures
            r@ == joined(self.path_view(), CONFIG_NAME@),
    {
        join_path(self.path.as_str(), CONFIG_NAME)
    }

    pub fn store_path(&self) -> (r: String)
        ensures
            r@ == joined(self.path_view(), STORE_DIRECTORY@),
    {
        join_path(self.path.as_str(), STORE_DIRECTORY)
    }

    pub fn template_path(&self) -> (r: String)
        ensures
            r@ == joined(self.path_view(), TEMPLATE_DIR@),
    {
        join_path(self.path.as_str(), TEMPLATE_DIR)
    }
}

} // verus!
