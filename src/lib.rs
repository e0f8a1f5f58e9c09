use vstd::prelude::*;

pub mod db;
pub mod error;
pub mod importer;
pub mod path;
pub mod relocator;
pub mod scanner;
pub mod settings;
pub mod template;
pub mod text;
pub mod viewer;

verus! {

} // verus!
