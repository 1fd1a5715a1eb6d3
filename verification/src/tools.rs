//! What is asked of the outside tools (the archive host, `tar`, `diff`), and
//! what their answers mean.

use vstd::prelude::*;
use vstd::string::*;
use vstd::utf8::*;
use crate::error::{DiffError, ErrorView};
use crate::text::{push_line, texts};
use crate::unified::{changed_block, changed_text};

verus! {

/// A package version as one word: the name, a hyphen, the version. An
/// unpacked archive lies in a directory of this name.
pub open spec fn versioned(name: Seq<char>, version: Seq<char>) -> Seq<char> {
    name + "-"@ + version
}

/// The file name under which the archive of a package version is kept.
pub open spec fn archive(name: Seq<char>, version: Seq<char>) -> Seq<char> {
    versioned(name, version) + ".tar.gz"@
}

/// The address from which the archive of a package version is fetched.
pub open spec fn download_address(name: Seq<char>, version: Seq<char>) -> Seq<char> {
    "https://crates.io/api/v1/crates/"@ + name + "/"@ + version + "/download"@
}

/// The arguments for `tar` to unpack an archive.
pub open spec fn extraction_words(archive: Seq<char>) -> Seq<Seq<char>> {
    seq!["xf"@, archive]
}

/// The arguments for `diff` to compare the unpacked trees of two versions:
/// unified, through all directories, blind to white space, in colour, and
/// without the files that the packaging adds.
pub open spec fn tree_diff_words(name: Seq<char>, old: Seq<char>, new: Seq<char>) -> Seq<
    Seq<char>,
> {
    seq![
        "-urw"@,
        "--color=always"@,
        "-x"@,
        "ci.yml"@,
        "-x"@,
        ".cargo_vcs_info.json"@,
        versioned(name, old),
        versioned(name, new),
    ]
}

/// The arguments for `diff` to compare the snapshots of one dependency:
/// blind to white space, and with so much context that the whole record is
/// shown.
pub open spec fn record_diff_words(name: Seq<char>, old: Seq<char>, new: Seq<char>) -> Seq<
    Seq<char>,
> {
    seq!["-w"@, "--unified=1000"@, versioned(name, old), versioned(name, new)]
}

/// The name, a hyphen, the version.
pub fn versioned_name(name: &str, version: &str) -> (r: String)
    ensures
        r@ == versioned(name@, version@),
{
    let mut text = String::from_str(name);
    text.append("-");
    text.append(version);
    text
}

/// The file name of the archive of a package version.
pub fn archive_name(name: &str, version: &str) -> (r: String)
    ensures
        r@ == archive(name@, version@),
{
    let mut text = versioned_name(name, version);
    text.append(".tar.gz");
    text
}

/// The address of the archive of a package version.
pub fn download_url(name: &str, version: &str) -> (r: String)
    ensures
        r@ == download_address(name@, version@),
{
    let mut text = String::from_str("https://crates.io/api/v1/crates/");
    text.append(name);
    text.append("/");
    text.append(version);
    text.append("/download");
    text
}

/// The arguments with which `tar` unpacks `archive`.
pub fn extraction_arguments(archive: &str) -> (r: Vec<String>)
    ensures
        texts(r@) == extraction_words(archive@),
{
    let mut words: Vec<String> = Vec::new();
    assert(texts(words@) =~= Seq::<Seq<char>>::empty());
    push_line(&mut words, String::from_str("xf"));
    push_line(&mut words, String::from_str(archive));
    assert(texts(words@) =~= extraction_words(archive@));
    words
}

/// The arguments with which `diff` compares the unpacked trees of two
/// versions of a package.
pub fn tree_diff_arguments(name: &str, old: &str, new: &str) -> (r: Vec<String>)
    ensures
        texts(r@) == tree_diff_words(name@, old@, new@),
{
    let mut words: Vec<String> = Vec::new();
    assert(texts(words@) =~= Seq::<Seq<char>>::empty());
    push_line(&mut words, String::from_str("-urw"));
    push_line(&mut words, String::from_str("--color=always"));
    push_line(&mut words, String::from_str("-x"));
    push_line(&mut words, String::from_str("ci.yml"));
    push_line(&mut words, String::from_str("-x"));
    push_line(&mut words, String::from_str(".cargo_vcs_info.json"));
    push_line(&mut words, versioned_name(name, old));
    push_line(&mut words, versioned_name(name, new));
    assert(texts(words@) =~= tree_diff_words(name@, old@, new@));
    words
}

/// The arguments with which `diff` compares the two snapshots of one
/// dependency.
pub fn record_diff_arguments(name: &str, old: &str, new: &str) -> (r: Vec<String>)
    ensures
        texts(r@) == record_diff_words(name@, old@, new@),
{
    let mut words: Vec<String> = Vec::new();
    assert(texts(words@) =~= Seq::<Seq<char>>::empty());
    push_line(&mut words, String::from_str("-w"));
    push_line(&mut words, String::from_str("--unified=1000"));
    push_line(&mut words, versioned_name(name, old));
    push_line(&mut words, versioned_name(name, new));
    assert(texts(words@) =~= record_diff_words(name@, old@, new@));
    words
}

/// What an outside tool left behind when it ended.
#[derive(Clone, Debug, PartialEq, Eq)]
pub struct ToolOutput {
    /// The exit code; none where a signal ended the tool.
    pub code: Option<i32>,
    pub stdout: Vec<u8>,
    pub stderr: Vec<u8>,
}

impl ToolOutput {
    /// The tool ended with the status that stands for success.
    pub open spec fn succeeded(&self) -> bool {
        self.code == Some(0i32)
    }

    /// `diff` found differences; this is no failure.
    pub open spec fn differs(&self) -> bool {
        self.code == Some(1i32)
    }
}

/// What `String::from_utf8_lossy` makes of bytes: a function of the bytes
/// alone.
pub uninterp spec fn lossy_text(bytes: Seq<u8>) -> Seq<char>;

/// `String::from_utf8_lossy` reads bytes as text and fails on none. The
/// result is what the function makes of these bytes; on well-formed UTF-8
/// that is the text which the bytes encode.
#[verifier::external_body]
fn lossy(bytes: &[u8]) -> (r: String)
    ensures
        r@ == lossy_text(bytes@),
        valid_utf8(bytes@) ==> r@ == decode_utf8(bytes@),
{
    String::from_utf8_lossy(bytes).into_owned()
}

/// The text that is shown for what a tool printed: the text that the bytes
/// encode where they are well-formed UTF-8, else what a lossy reading makes
/// of them.
pub open spec fn shown_text(bytes: Seq<u8>) -> Seq<char> {
    if valid_utf8(bytes) {
        decode_utf8(bytes)
    } else {
        lossy_text(bytes)
    }
}

/// The text that is shown for what a tool printed.
pub fn shown(bytes: &Vec<u8>) -> (r: String)
    ensures
        r@ == shown_text(bytes@),
{
    lossy(bytes.as_slice())
}

/// The failure of a tool: the command, and all that it printed on either
/// stream.
pub open spec fn failure_of(command: Seq<char>, output: ToolOutput) -> ErrorView {
    ErrorView::ToolFailed {
        command,
        stdout: shown_text(output.stdout@),
        stderr: shown_text(output.stderr@),
    }
}

/// The failure of a tool, with all that it printed.
pub fn tool_failure(command: &str, output: &ToolOutput) -> (r: DiffError)
    ensures
        r@ == failure_of(command@, *output),
{
    DiffError::ToolFailed {
        command: String::from_str(command),
        stdout: shown(&output.stdout),
        stderr: shown(&output.stderr),
    }
}

/// Hands the output of a tool on where the tool succeeded, and turns it
/// into a failure where it did not.
pub fn success_or_error(command: &str, output: ToolOutput) -> (r: Result<ToolOutput, DiffError>)
    ensures
        output.succeeded() ==> r == Ok::<ToolOutput, DiffError>(output),
        !output.succeeded() ==> r is Err && r->Err_0@ == failure_of(command@, output),
{
    match output.code {
        Some(0) => Ok(output),
        _ => Err(tool_failure(command, &output)),
    }
}

/// What a comparison of two trees means: what `diff` printed, whether it
/// found differences or none, and a failure on any other status.
pub open spec fn tree_answer(command: Seq<char>, output: ToolOutput) -> Result<
    Seq<char>,
    ErrorView,
> {
    if output.succeeded() || output.differs() {
        Ok(shown_text(output.stdout@))
    } else {
        Err(failure_of(command, output))
    }
}

/// What a comparison of two snapshots means: nothing to show where `diff`
/// found them alike, else what it printed, without the header.
pub open spec fn record_answer(command: Seq<char>, output: ToolOutput) -> Result<
    Option<Seq<char>>,
    ErrorView,
> {
    if output.succeeded() {
        Ok(None)
    } else if output.differs() {
        Ok(Some(changed_text(shown_text(output.stdout@))))
    } else {
        Err(failure_of(command, output))
    }
}

/// The text to show for a comparison of two trees. `diff` ends with status 1
/// where it found differences: that is no failure. Any other status but 0
/// is one.
pub fn tree_diff_outcome(command: &str, output: &ToolOutput) -> (r: Result<String, DiffError>)
    ensures
        match r {
            Ok(text) => tree_answer(command@, *output) == Ok::<Seq<char>, ErrorView>(text@),
            Err(error) => tree_answer(command@, *output) == Err::<Seq<char>, ErrorView>(error@),
        },
{
    match output.code {
        Some(0) | Some(1) => Ok(shown(&output.stdout)),
        _ => Err(tool_failure(command, output)),
    }
}

/// The text to show for a comparison of the two snapshots of a dependency,
/// if there is any.
pub fn record_diff_outcome(command: &str, output: &ToolOutput) -> (r: Result<
    Option<String>,
    DiffError,
>)
    ensures
        match r {
            Ok(Some(text)) => record_answer(command@, *output) == Ok::<
                Option<Seq<char>>,
                ErrorView,
            >(Some(text@)),
            Ok(None) => record_answer(command@, *output) == Ok::<Option<Seq<char>>, ErrorView>(
                None,
            ),
            Err(error) => record_answer(command@, *output) == Err::<
                Option<Seq<char>>,
                ErrorView,
            >(error@),
        },
{
    match output.code {
        Some(0) => Ok(None),
        Some(1) => {
            let printed = shown(&output.stdout);
            Ok(Some(changed_block(printed.as_str())))
        },
        _ => Err(tool_failure(command, output)),
    }
}

} // verus!
