use vstd::prelude::*;

verus! {

/// The command line: an optional field separator, an optional input file, a verbosity
/// count and the slice expressions.
#[derive(Debug)]
pub struct Args {
    pub field_separation: Option<String>,
    pub input_file: Option<String>,
    pub verbose: u8,
    pub slice: Vec<String>,
}

impl Args {
    /// The field separator: the one given, or a single space.
    pub fn separator(&self) -> (r: String)
        ensures
            r@ == match self.field_separation {
                Some(s) => s@,
                None => seq![' '],
            },
    {
        proof {
            reveal_strlit(" ");
            assert(" "@ =~= seq![' ']);
        }
        match &self.field_separation {
            Some(s) => s.clone(),
            None => " ".to_owned(),
        }
    }
}

} // verus!
