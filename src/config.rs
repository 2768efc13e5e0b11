//! Package metadata: name, version and description.
use vstd::prelude::*;

verus! {

/// The metadata of a package.
#[derive(Clone, Debug)]
pub struct Config {
    pub name: String,
    pub version: String,
    pub description: String,
}

impl Config {
    /// Metadata from the fields of a package manifest; a missing description is empty.
    pub fn new(name: String, version: String, description: Option<String>) -> (r: Self)
        ensures
            r.name@ == name@,
            r.version@ == version@,
            description is Some ==> r.description@ == description->Some_0@,
            description is None ==> r.description@ == Seq::<char>::empty(),
    {
        let description = match description {
            Some(d) => d,
            None => String::new(),
        };
        Config { name, version, description }
    }
}

} // verus!
