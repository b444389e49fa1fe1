//! Build hooks: the conventional script names, the command line a hook runs
//! with, and the captured result of a run. Executing the script is the
//! caller's task; the decisions about it are made here.

use vstd::prelude::*;
use vstd::string::StringExecFns;

verus! {

/// The build hooks, run in this order after an extraction.
#[derive(Debug, Clone, Copy, PartialEq, Eq)]
pub enum Hook {
    PostExtract,
    Configure,
    Make,
}

/// The captured outcome of one hook run: the exit status and the combined
/// output lines.
#[derive(Debug)]
pub struct ScriptResult {
    pub status: i32,
    pub output: Vec<String>,
}

/// The parts, joined with the separator between them.
pub open spec fn spec_join(parts: Seq<Seq<char>>, sep: Seq<char>) -> Seq<char>
    decreases parts.len(),
{
    if parts.len() == 0 {
        Seq::empty()
    } else if parts.len() == 1 {
        parts[0]
    } else {
        spec_join(parts.drop_last(), sep) + sep + parts.last()
    }
}

/// The views of a sequence of strings.
pub open spec fn views(v: Seq<String>) -> Seq<Seq<char>> {
    v.map_values(|s: String| s@)
}

impl Hook {
    /// The conventional script name of this hook.
    pub open spec fn spec_name(self) -> Seq<char> {
        match self {
            Hook::PostExtract => "post-extract"@,
            Hook::Configure => "configure"@,
            Hook::Make => "make"@,
        }
    }

    pub fn name(&self) -> (r: &'static str)
        ensures
            r@ == self.spec_name(),
    {
        match self {
            Hook::PostExtract => "post-extract",
            Hook::Configure => "configure",
            Hook::Make => "make",
        }
    }

    /// The conventional path of this hook's script in the hooks directory.
    /// Whether an executable file is present there is for the caller to
    /// check.
    pub fn get(hook: Self, hooks_dir: &str) -> (r: String)
        ensures
            r@ == hooks_dir@ + "/"@ + hook.spec_name(),
    {
        let mut out = String::from_str(hooks_dir);
        out.append("/");
        out.append(hook.name());
        out
    }

    /// The shell command line a hook runs with: the script path, the
    /// arguments separated by spaces, and the redirection joining the error
    /// stream into the output stream.
    pub fn get_cmd(path: &str, args: &Vec<String>) -> (r: String)
        ensures
            r@ == path@ + " "@ + spec_join(views(args@), " "@) + " 2>&1"@,
    {
        let mut out = String::from_str(path);
        out.append(" ");
        let mut i: usize = 0;
        while i < args.len()
            invariant
                i <= args@.len(),
                out@ == path@ + " "@ + spec_join(views(args@).subrange(0, i as int), " "@),
            decreases args@.len() - i,
        {
            if i > 0 {
                out.append(" ");
            }
            out.append(args[i].as_str());
            proof {
                let pre = views(args@).subrange(0, i as int);
                let ext = views(args@).subrange(0, i + 1 as int);
                assert(ext.drop_last() =~= pre);
                assert(ext.last() == args@[i as int]@);
                if i == 0 {
                    assert(out@ =~= path@ + " "@ + spec_join(ext, " "@));
                } else {
                    assert(out@ =~= path@ + " "@ + spec_join(ext, " "@));
                }
            }
            i += 1;
        }
        out.append(" 2>&1");
        proof {
            assert(views(args@).subrange(0, args@.len() as int) =~= views(args@));
        }
        out
    }
}

impl ScriptResult {
    /// An empty result: success with no output yet.
    pub fn new() -> (r: Self)
        ensures
            r.status == 0,
            r.output@.len() == 0,
    {
        ScriptResult { status: 0, output: Vec::new() }
    }

    /// Appends one captured output line.
    pub fn push(&mut self, line: &str)
        ensures
            final(self).status == old(self).status,
            final(self).output@.len() == old(self).output@.len() + 1,
            final(self).output@.last()@ == line@,
            forall|i: int|
                0 <= i < old(self).output@.len() ==> final(self).output@[i] == old(
                    self,
                ).output@[i],
    {
        self.output.push(String::from_str(line));
    }

    /// Records the exit status of the run.
    pub fn set_status(&mut self, status: i32)
        ensures
            final(self).status == status,
            final(self).output == old(self).output,
    {
        self.status = status;
    }

    /// A non-zero exit status makes the run a reported failure; the
    /// enclosing operation is then aborted with the saved output.
    pub fn is_failure(&self) -> (r: bool)
        ensures
            r == (self.status != 0),
    {
        self.status != 0
    }
}

} // verus!
