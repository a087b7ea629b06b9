//! The command lines of the `forge` tool, and the errors of running it.
use vstd::prelude::*;

use crate::text::push_str;

verus! {

#[verifier::external_type_specification]
#[verifier::external_body]
pub struct ExIoError(std::io::Error);

/// Why a forge command could not be run.
pub enum ForgeError {
    ForgeNotFound,
    CommandFailed { stdout: String, stderr: String, workspace: String },
    IoError(std::io::Error),
}

impl From<std::io::Error> for ForgeError {
    fn from(err: std::io::Error) -> (r: Self) {
        ForgeError::IoError(err)
    }
}

impl vstd::std_specs::convert::FromSpecImpl<std::io::Error> for ForgeError {
    open spec fn obeys_from_spec() -> bool {
        true
    }

    open spec fn from_spec(v: std::io::Error) -> Self {
        ForgeError::IoError(v)
    }
}

/// The text of an I/O error (std's `Display` of `std::io::Error`). What the text
/// says comes from the operating system, so nothing is stated of it.
#[verifier::external_body]
fn io_error_text(err: &std::io::Error) -> String {
    format!("{err}")
}

/// The text of `bytes` read as UTF-8, each invalid sequence replaced by U+FFFD.
pub uninterp spec fn lossy_text(bytes: Seq<u8>) -> Seq<char>;

/// Every byte is below 128.
pub open spec fn is_ascii(bytes: Seq<u8>) -> bool {
    forall|i: int| 0 <= i < bytes.len() ==> #[trigger] bytes[i] < 128
}

/// Each byte as the character of the same number.
pub open spec fn ascii_chars(bytes: Seq<u8>) -> Seq<char> {
    bytes.map_values(|b: u8| b as char)
}

/// std's `String::from_utf8_lossy`. Its documentation says that valid UTF-8 comes
/// back unchanged; of ASCII bytes that is each byte as its character.
#[verifier::external_body]
fn utf8_lossy(bytes: &[u8]) -> (r: String)
    ensures
        r@ == lossy_text(bytes@),
        is_ascii(bytes@) ==> r@ == ascii_chars(bytes@),
{
    String::from_utf8_lossy(bytes).to_string()
}

/// The message of an error that the command failed.
pub open spec fn failed_message(stdout: Seq<char>, stderr: Seq<char>, workspace: Seq<char>) -> Seq<
    char,
> {
    "Forge command failed in "@ + workspace + ": stdout: "@ + stdout + ", stderr: "@ + stderr
}

impl ForgeError {
    /// The message that describes the error.
    pub fn message(&self) -> (r: String)
        ensures
            self is ForgeNotFound ==> r@ == "Forge command not found in PATH or common locations"@,
            self matches ForgeError::CommandFailed { stdout, stderr, workspace } ==> r@
                == failed_message(stdout@, stderr@, workspace@),
            self is IoError ==> exists|t: Seq<char>| r@ == "IO error: "@ + t,
    {
        match self {
            ForgeError::ForgeNotFound => {
                let mut r = String::new();
                push_str(&mut r, "Forge command not found in PATH or common locations");
                r
            },
            ForgeError::CommandFailed { stdout, stderr, workspace } => {
                let mut r = String::new();
                push_str(&mut r, "Forge command failed in ");
                push_str(&mut r, workspace.as_str());
                push_str(&mut r, ": stdout: ");
                push_str(&mut r, stdout.as_str());
                push_str(&mut r, ", stderr: ");
                push_str(&mut r, stderr.as_str());
                assert(r@ =~= failed_message(stdout@, stderr@, workspace@));
                r
            },
            ForgeError::IoError(err) => {
                let text = io_error_text(err);
                let mut r = String::new();
                push_str(&mut r, "IO error: ");
                push_str(&mut r, text.as_str());
                assert(r@ == "IO error: "@ + text@);
                r
            },
        }
    }
}

/// The words of a command line, without the program.
pub struct CommandArgs {
    args: Vec<String>,
}

impl View for CommandArgs {
    type V = Seq<Seq<char>>;

    closed spec fn view(&self) -> Seq<Seq<char>> {
        self.args@.map_values(|a: String| a@)
    }
}

/// The words joined by single spaces.
pub open spec fn joined(words: Seq<Seq<char>>) -> Seq<char>
    decreases words.len(),
{
    if words.len() == 0 {
        seq![]
    } else if words.len() == 1 {
        words[0]
    } else {
        joined(words.drop_last()) + " "@ + words.last()
    }
}

impl CommandArgs {
    pub fn new() -> (r: Self)
        ensures
            r@ == Seq::<Seq<char>>::empty(),
    {
        let r = CommandArgs { args: Vec::new() };
        assert(r@ =~= Seq::<Seq<char>>::empty());
        r
    }

    /// Appends one word.
    pub fn arg(&mut self, arg: &str) -> (r: &mut Self)
        ensures
            r@ == old(self)@.push(arg@),
            *final(self) == *final(r),
    {
        let ghost before = self@;
        self.args.push(arg.to_owned());
        assert(self@ =~= before.push(arg@));
        self
    }

    /// A copy of the words.
    pub fn copy(&self) -> (r: Self)
        ensures
            r@ == self@,
    {
        let mut args: Vec<String> = Vec::new();
        let mut i: usize = 0;
        while i < self.args.len()
            invariant
                i <= self.args@.len(),
                args@.len() == i,
                forall|j: int| 0 <= j < i ==> #[trigger] args@[j]@ == self.args@[j]@,
            decreases self.args@.len() - i,
        {
            args.push(self.args[i].clone());
            i = i + 1;
        }
        let r = CommandArgs { args };
        assert(r@ =~= self@);
        r
    }

    /// The words, in order.
    pub fn into_vec(self) -> (r: Vec<String>)
        ensures
            r@.map_values(|a: String| a@) == self@,
    {
        self.args
    }

    /// The words joined by single spaces.
    pub fn to_string(&self) -> (r: String)
        ensures
            r@ == joined(self@),
    {
        let mut r = String::new();
        let n = self.args.len();
        let mut i: usize = 0;
        while i < n
            invariant
                n == self.args@.len(),
                i <= n,
                r@ == joined(self@.take(i as int)),
            decreases n - i,
        {
            let ghost before = r@;
            if i > 0 {
                push_str(&mut r, " ");
            }
            push_str(&mut r, self.args[i].as_str());
            proof {
                assert(self@.take(i as int + 1).drop_last() =~= self@.take(i as int));
                if i == 0 {
                    assert(r@ =~= self@[0]);
                } else {
                    assert(r@ =~= before + " "@ + self@[i as int]);
                }
            }
            i = i + 1;
        }
        assert(self@.take(n as int) =~= self@);
        r
    }
}

impl Default for CommandArgs {
    fn default() -> (r: Self)
        ensures
            r@ == Seq::<Seq<char>>::empty(),
    {
        Self::new()
    }
}

/// The words of a test command.
pub open spec fn test_args(function_name: Seq<char>, test_path: Seq<char>) -> Seq<Seq<char>> {
    seq!["test"@, "--match-test"@, function_name, "--match-path"@, test_path]
}

/// The words of a command that runs one test under the debugger and dumps its trace.
pub open spec fn debug_args(function_name: Seq<char>, test_path: Seq<char>, output_path: Seq<char>) -> Seq<
    Seq<char>,
> {
    seq![
        "test"@,
        "--debug"@,
        "--match-test"@,
        function_name,
        "--match-path"@,
        test_path,
        "--dump"@,
        output_path,
        "--ast"@,
        "--optimizer-runs"@,
        "0"@,
        "--optimize"@,
        "false"@,
        "-vvvvv"@,
    ]
}

pub open spec fn opt_view(o: Option<String>) -> Option<Seq<char>> {
    match o {
        Some(s) => Some(s@),
        None => None,
    }
}

/// Where the forge tool is, and the directory to run it in.
pub struct ForgeView {
    pub forge_path: Seq<char>,
    pub workspace_path: Option<Seq<char>>,
}

/// The forge tool.
pub struct Forge {
    forge_path: String,
    workspace_path: Option<String>,
}

impl View for Forge {
    type V = ForgeView;

    closed spec fn view(&self) -> ForgeView {
        ForgeView { forge_path: self.forge_path@, workspace_path: opt_view(self.workspace_path) }
    }
}

/// A forge command line: the program, the directory and the words.
pub struct ForgeCommandView {
    pub forge_path: Seq<char>,
    pub workspace_path: Option<Seq<char>>,
    pub args: Seq<Seq<char>>,
}

/// A forge command that can be run, or read as words.
pub struct ForgeCommand {
    forge_path: String,
    workspace_path: Option<String>,
    args: CommandArgs,
}

impl View for ForgeCommand {
    type V = ForgeCommandView;

    closed spec fn view(&self) -> ForgeCommandView {
        ForgeCommandView {
            forge_path: self.forge_path@,
            workspace_path: opt_view(self.workspace_path),
            args: self.args@,
        }
    }
}

fn clone_opt(o: &Option<String>) -> (r: Option<String>)
    ensures
        opt_view(r) == opt_view(*o),
{
    match o {
        Some(s) => Some(s.clone()),
        None => None,
    }
}

impl Forge {
    /// The forge tool at `found`, the place where a search of the machine found
    /// it; `ForgeNotFound` where the search found none.
    pub fn new(found: Option<String>) -> (r: Result<Self, ForgeError>)
        ensures
            found is None ==> r matches Err(ForgeError::ForgeNotFound),
            found matches Some(p) ==> r matches Ok(f) && f@ == (ForgeView {
                forge_path: p@,
                workspace_path: None,
            }),
    {
        match found {
            Some(forge_path) => Ok(Forge { forge_path, workspace_path: None }),
            None => Err(ForgeError::ForgeNotFound),
        }
    }

    /// The same tool, run in the directory `path`.
    pub fn workspace_path(self, path: &str) -> (r: Self)
        ensures
            r@ == (ForgeView { forge_path: self@.forge_path, workspace_path: Some(path@) }),
    {
        Forge { forge_path: self.forge_path, workspace_path: Some(path.to_owned()) }
    }

    /// A command that runs the tests named `function_name` in the files at `test_path`.
    pub fn test(&self, function_name: &str, test_path: &str) -> (r: ForgeCommand)
        ensures
            r@ == (ForgeCommandView {
                forge_path: self@.forge_path,
                workspace_path: self@.workspace_path,
                args: test_args(function_name@, test_path@),
            }),
    {
        ForgeCommand {
            forge_path: self.forge_path.clone(),
            workspace_path: clone_opt(&self.workspace_path),
            args: crate::tracer::Forge::test(function_name, test_path),
        }
    }

    /// A command that runs one test under the debugger and dumps its trace at `output_path`.
    pub fn debug(&self, function_name: &str, test_path: &str, output_path: &str) -> (r:
        ForgeCommand)
        ensures
            r@ == (ForgeCommandView {
                forge_path: self@.forge_path,
                workspace_path: self@.workspace_path,
                args: debug_args(function_name@, test_path@, output_path@),
            }),
    {
        ForgeCommand {
            forge_path: self.forge_path.clone(),
            workspace_path: clone_opt(&self.workspace_path),
            args: crate::tracer::Forge::debug(function_name, test_path, output_path),
        }
    }
}

impl ForgeCommand {
    /// The words of the command.
    pub fn args(&self) -> (r: CommandArgs)
        ensures
            r@ == self@.args,
    {
        self.args.copy()
    }

    /// The program to run.
    pub fn forge_path(&self) -> (r: &str)
        ensures
            r@ == self@.forge_path,
    {
        self.forge_path.as_str()
    }

    /// The directory to run the program in, where one was set.
    pub fn workspace(&self) -> (r: Option<&str>)
        ensures
            r is None <==> self@.workspace_path is None,
            r matches Some(w) ==> self@.workspace_path == Some(w@),
    {
        match &self.workspace_path {
            Some(w) => Some(w.as_str()),
            None => None,
        }
    }

    /// The error for a run that failed with the given output; the directory is
    /// named `.` where none was set.
    pub fn command_failed(&self, stdout: String, stderr: String) -> (r: ForgeError)
        ensures
            r matches ForgeError::CommandFailed { stdout: o, stderr: e, workspace: w } && o@
                == stdout@ && e@ == stderr@ && w@ == match self@.workspace_path {
                Some(p) => p,
                None => "."@,
            },
    {
        let workspace = match &self.workspace_path {
            Some(w) => w.clone(),
            None => ".".to_owned(),
        };
        ForgeError::CommandFailed { stdout, stderr, workspace }
    }

    /// The error for a run that failed, from the bytes that it wrote.
    pub fn failure(&self, stdout: &[u8], stderr: &[u8]) -> (r: ForgeError)
        ensures
            r matches ForgeError::CommandFailed { stdout: o, stderr: e, workspace: w } && o@
                == lossy_text(stdout@) && e@ == lossy_text(stderr@) && w@ == match self@.workspace_path {
                Some(p) => p,
                None => "."@,
            },
            r matches ForgeError::CommandFailed { stdout: o, stderr: e, .. } && (is_ascii(stdout@)
                ==> o@ == ascii_chars(stdout@)) && (is_ascii(stderr@) ==> e@ == ascii_chars(stderr@)),
    {
        let out = utf8_lossy(stdout);
        let err = utf8_lossy(stderr);
        self.command_failed(out, err)
    }
}

} // verus!
