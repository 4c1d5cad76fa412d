use vstd::prelude::*;

verus! {

/// Collects the lexical errors of a run, each as a message and a line.
pub struct Context {
    pub errors: Vec<(String, u64)>,
}

/// The model of an error list: messages as character sequences, lines as integers.
pub open spec fn errors_view(e: Seq<(String, u64)>) -> Seq<(Seq<char>, int)> {
    e.map_values(|p: (String, u64)| (p.0@, p.1 as int))
}

impl Context {
    pub fn new() -> (r: Context)
        ensures
            r.errors@.len() == 0,
    {
        Context { errors: Vec::new() }
    }

    /// Records one error.
    pub fn error(&mut self, message: &str, line: u64)
        ensures
            errors_view(final(self).errors@) == errors_view(old(self).errors@).push(
                (message@, line as int),
            ),
    {
        let m = String::from_str(message);
        self.errors.push((m, line));
        proof {
            assert(errors_view(self.errors@) =~= errors_view(old(self).errors@).push(
                (message@, line as int),
            ));
        }
    }
}

} // verus!
