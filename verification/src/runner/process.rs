use vstd::prelude::*;

verus! {

/// A command to run: the program and its arguments.
pub struct RunnerProcessDescription {
    command: Vec<String>,
}

impl View for RunnerProcessDescription {
    type V = Seq<Seq<char>>;

    closed spec fn view(&self) -> Seq<Seq<char>> {
        self.command@.map_values(|part: String| part@)
    }
}

impl RunnerProcessDescription {
    /// The command made of these parts.
    pub fn new(command: Vec<String>) -> (description: Self)
        ensures
            description@ == command@.map_values(|part: String| part@),
    {
        RunnerProcessDescription { command }
    }

    /// What to execute: the program and its arguments, or nothing for a
    /// command with no parts.
    pub fn exec(&self) -> (program: Option<(&str, &[String])>)
        ensures
            self@.len() == 0 ==> program is None,
            self@.len() > 0 ==> {
                &&& program matches Some((name, args))
                &&& name@ == self@[0]
                &&& args@.map_values(|part: String| part@) == self@.skip(1)
            },
    {
        if self.command.len() == 0 {
            return None;
        }
        let args = vstd::slice::slice_subrange(self.command.as_slice(), 1, self.command.len());
        assert(args@.map_values(|part: String| part@) =~= self@.skip(1));
        Some((self.command[0].as_str(), args))
    }
}

} // verus!
