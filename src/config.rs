use vstd::prelude::*;

verus! {

/// The command-line settings: the path of the maze image.
pub struct Config {
    pub maze_path: String,
}

impl Config {
    /// Reads the settings from the program arguments, `args[0]` being the
    /// program name; fails when no maze path follows it.
    pub fn build(args: &[String]) -> (r: Result<Config, &'static str>)
        ensures
            r is Ok <==> args@.len() >= 2,
            r is Ok ==> r->Ok_0.maze_path@ == args@[1]@,
            r is Err ==> r->Err_0@ == "Not enough arguments!"@,
    {
        if args.len() < 2 {
            return Err("Not enough arguments!");
        }
        let maze_path = args[1].clone();
        Ok(Config { maze_path })
    }
}

} // verus!
