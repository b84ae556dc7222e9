//! The host's side of the boundary: which file holds a filter, and how the
//! parameter text is handed across.

use vstd::prelude::*;
use vstd::slice::slice_to_vec;
use vstd::string::{StringExecFns, StringSliceAdditionalSpecFns};

verus! {

#[verifier::external_type_specification]
#[verifier::external_body]
pub struct ExPath(std::path::Path);

#[verifier::external_type_specification]
#[verifier::external_body]
pub struct ExPathBuf(std::path::PathBuf);

/// The operating systems whose names for module files are known.
#[derive(Clone, Copy, Debug, PartialEq, Eq, Structural)]
pub enum Os {
    Linux,
    Windows,
    MacOs,
}

/// The file name that `libloading::library_filename` gives to a library
/// with the given stem, in the program as it was built. Which name that is
/// depends on the platform, and nothing is said of it here.
pub uninterp spec fn platform_name(stem: Seq<char>) -> Seq<char>;

/// The path that `std::path::Path::join` makes of a directory and a file
/// name, in the program as it was built. How two paths are joined depends
/// on the platform, and nothing is said of it here.
pub uninterp spec fn joined(dir: &std::path::Path, file_name: Seq<char>) -> std::path::PathBuf;

/// Calls `libloading::library_filename`, which puts the platform's prefix
/// and suffix for dynamic libraries round the stem. Both are constants of
/// the build, so the name depends on the stem alone.
#[verifier::external_body]
fn platform_file_name(stem: &str) -> (file_name: String)
    ensures
        file_name@ == platform_name(stem@),
{
    libloading::library_filename(stem).to_string_lossy().into_owned()
}

/// Calls `std::path::Path::join`, which reads nothing but its two
/// arguments.
#[verifier::external_body]
fn join(dir: &std::path::Path, file_name: &str) -> (path: std::path::PathBuf)
    ensures
        path == joined(dir, file_name@),
{
    dir.join(file_name)
}

impl Os {
    /// The system that names a library without a stem `file_name`:
    /// `.dll` is Windows, `lib.dylib` is macOS, and everything else is
    /// taken for Linux.
    pub open spec fn named(file_name: Seq<char>) -> Os {
        if file_name == ".dll"@ {
            Os::Windows
        } else if file_name == "lib.dylib"@ {
            Os::MacOs
        } else {
            Os::Linux
        }
    }

    /// Tells the system by the name it gives to a library without a stem.
    pub fn from_file_name(file_name: &str) -> (os: Os)
        ensures
            os == Os::named(file_name@),
    {
        let given: String = String::from_str(file_name);
        if given == String::from_str(".dll") {
            Os::Windows
        } else if given == String::from_str("lib.dylib") {
            Os::MacOs
        } else {
            Os::Linux
        }
    }

    /// The system that this program was built for, told by the name that
    /// the platform gives to a library without a stem.
    pub open spec fn of_platform() -> Os {
        Os::named(platform_name(""@))
    }

    /// The system that this program runs on: Windows where libraries are
    /// named `<name>.dll`, macOS where they are named `lib<name>.dylib`,
    /// and Linux everywhere else. A system that names its libraries as
    /// macOS does is taken for macOS.
    pub fn current() -> (os: Os)
        ensures
            os == Os::of_platform(),
    {
        let file_name: String = platform_file_name("");
        Os::from_file_name(file_name.as_str())
    }
}

/// Name of the module file of the filter `name` on the system `os`.
pub open spec fn file_name_of(name: Seq<char>, os: Os) -> Seq<char> {
    match os {
        Os::Windows => name + ".dll"@,
        Os::MacOs => "lib"@ + name + ".dylib"@,
        Os::Linux => "lib"@ + name + ".so"@,
    }
}

/// Builds the name of a filter's module file: `lib<name>.so` on Linux,
/// `lib<name>.dylib` on macOS and `<name>.dll` on Windows.
pub fn library_filename(name: &str, os: Os) -> (file_name: String)
    ensures
        file_name@ == file_name_of(name@, os),
{
    match os {
        Os::Windows => {
            let mut file_name: String = String::from_str(name);
            file_name.append(".dll");
            file_name
        },
        Os::MacOs => {
            let mut file_name: String = String::from_str("lib");
            file_name.append(name);
            file_name.append(".dylib");
            file_name
        },
        Os::Linux => {
            let mut file_name: String = String::from_str("lib");
            file_name.append(name);
            file_name.append(".so");
            file_name
        },
    }
}

/// The path of a filter's module file: the file name that the filter has on
/// this system, joined to `dir`.
pub fn library_path(name: &str, dir: &std::path::Path) -> (path: std::path::PathBuf)
    ensures
        path == joined(dir, file_name_of(name@, Os::of_platform())),
{
    let file_name: String = library_filename(name, Os::current());
    join(dir, file_name.as_str())
}

/// The bytes that stand for a parameter text on the other side of the
/// boundary, where a text ends at its first zero byte: the text's own
/// bytes, or none at all where one of them is zero.
pub open spec fn marshalled(text: Seq<u8>) -> Seq<u8> {
    if text.contains(0u8) {
        Seq::empty()
    } else {
        text
    }
}

/// Prepares a parameter text for the call across the boundary. A text with
/// a zero byte in it cannot be passed, and is replaced by the empty text.
pub fn marshal_params(params: &str) -> (bytes: Vec<u8>)
    ensures
        bytes@ == marshalled(params.spec_bytes()),
{
    let text: &[u8] = params.as_bytes();
    let mut i: usize = 0;
    while i < text.len()
        invariant
            text@ == params.spec_bytes(),
            i <= text@.len(),
            forall|j: int| 0 <= j < i ==> text@[j] != 0u8,
        decreases text@.len() - i,
    {
        if text[i] == 0 {
            assert(text@.contains(0u8));
            let nothing: Vec<u8> = Vec::new();
            assert(nothing@ =~= Seq::<u8>::empty());
            return nothing;
        }
        i = i + 1;
    }
    assert(!text@.contains(0u8));
    slice_to_vec(text)
}

} // verus!
