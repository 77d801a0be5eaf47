//! The command-line options as plain values, with their validation rules.
//! Argument parsing itself is a collaborator concern; the core only checks
//! and derives.

use vstd::prelude::*;

verus! {

use vstd::string::StringExecFns;

/// The options of one invocation.
#[derive(Debug, Clone)]
pub struct Cli {
    pub path: Option<String>,
    pub by: String,
    pub verbose: bool,
    pub top: usize,
    pub max_depth: Option<usize>,
    pub exclude: Vec<String>,
    pub follow_symlinks: bool,
    pub no_color: bool,
    pub json: bool,
    pub output: Option<String>,
    pub size_buckets: Option<String>,
    pub age_buckets: Option<String>,
    pub progress: bool,
    pub parallel: bool,
    pub threads: usize,
    pub find_duplicates: bool,
    pub compare: Option<Vec<String>>,
    pub cached: bool,
    pub cache_dir: Option<String>,
    pub checkpoint: Option<String>,
    pub resume: Option<String>,
    pub checkpoint_interval: u64,
}

impl Cli {
    /// Accepts exactly the categorization modes `type`, `size` and `age`;
    /// any other mode is rejected with a message naming it.
    pub fn validate(&self) -> (r: Result<(), String>)
        ensures
            r is Ok <==> (self.by@ == "type"@ || self.by@ == "size"@ || self.by@ == "age"@),
            r matches Result::Err(m) ==> m@ == "Invalid --by mode: "@ + self.by@
                + ". Must be type, size, or age"@,
    {
        let t = "type".to_owned();
        let s = "size".to_owned();
        let a = "age".to_owned();
        if self.by == t || self.by == s || self.by == a {
            Result::Ok(())
        } else {
            let mut m = "Invalid --by mode: ".to_owned();
            m.append(self.by.as_str());
            m.append(". Must be type, size, or age");
            Result::Err(m)
        }
    }

    /// The path to scan: the given one, or the current directory.
    pub fn get_path(&self) -> (p: String)
        ensures
            p@ == match self.path {
                Option::Some(q) => q@,
                Option::None => "."@,
            },
    {
        match &self.path {
            Option::Some(q) => q.clone(),
            Option::None => ".".to_owned(),
        }
    }

    /// Whether the run writes its results as structured output: requested
    /// directly, or implied by an output file.
    pub fn should_output_json(&self) -> (b: bool)
        ensures
            b == (self.json || self.output is Some),
    {
        self.json || self.output.is_some()
    }
}

} // verus!
