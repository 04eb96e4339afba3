use vstd::prelude::*;

verus! {

/// The run configuration: the path patterns of the schema files to read, and
/// where the consolidated schema goes.
#[derive(Clone, Debug)]
pub struct AuroraConfig {
    pub files: Vec<String>,
    pub output: String,
}

} // verus!
