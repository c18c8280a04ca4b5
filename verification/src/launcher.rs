//! The decisions of the editor extension that finds or installs the
//! language server: which release asset fits the platform, where a
//! downloaded server lives, which cached server to reuse.
use vstd::prelude::*;
use vstd::string::StringSliceAdditionalSpecFns;
use vstd::utf8::encode_utf8;

use crate::text::{push_str, str_eq, string_of};

verus! {

/// The operating systems the editor reports.
#[derive(Clone, Copy, Debug, PartialEq, Eq)]
pub enum Os {
    Mac,
    Linux,
    Windows,
}

/// The processor architectures the editor reports.
#[derive(Clone, Copy, Debug, PartialEq, Eq)]
pub enum Architecture {
    Aarch64,
    X86,
    X8664,
}

/// The release asset that holds the server for a platform, if one does.
pub open spec fn spec_release_asset_name(os: Os, arch: Architecture) -> Option<&'static str> {
    match (os, arch) {
        (Os::Windows, Architecture::X8664) => Some("binary-preview-lsp-windows-x86_64.exe"),
        (Os::Linux, Architecture::X8664) => Some("binary-preview-lsp-linux-x86_64"),
        (Os::Mac, Architecture::X8664) => Some("binary-preview-lsp-macos-x86_64"),
        (Os::Mac, Architecture::Aarch64) => Some("binary-preview-lsp-macos-aarch64"),
        _ => None,
    }
}

/// The release asset that holds the server for a platform; none for a
/// platform the server is not built for.
pub fn release_asset_name(os: Os, architecture: Architecture) -> (res: Option<&'static str>)
    ensures
        res == spec_release_asset_name(os, architecture),
{
    match (os, architecture) {
        (Os::Windows, Architecture::X8664) => Some("binary-preview-lsp-windows-x86_64.exe"),
        (Os::Linux, Architecture::X8664) => Some("binary-preview-lsp-linux-x86_64"),
        (Os::Mac, Architecture::X8664) => Some("binary-preview-lsp-macos-x86_64"),
        (Os::Mac, Architecture::Aarch64) => Some("binary-preview-lsp-macos-aarch64"),
        _ => None,
    }
}

/// The file name of the server executable on a platform.
pub open spec fn spec_binary_name(os: Os) -> &'static str {
    if os == Os::Windows {
        "binary-preview-lsp.exe"
    } else {
        "binary-preview-lsp"
    }
}

pub fn binary_name(os: Os) -> (res: &'static str)
    ensures
        res == spec_binary_name(os),
{
    match os {
        Os::Windows => "binary-preview-lsp.exe",
        _ => "binary-preview-lsp",
    }
}

/// The directory that holds the server of a release version.
pub open spec fn spec_version_dir(version: Seq<char>) -> Seq<char> {
    "binary-preview-lsp-"@ + version
}

pub fn version_dir(version: &str) -> (res: String)
    ensures
        res@ == spec_version_dir(version@),
{
    let mut s = string_of("binary-preview-lsp-");
    push_str(&mut s, version);
    s
}

/// Where the server of a release version is installed, relative to the
/// extension's working directory.
pub open spec fn spec_binary_path(version: Seq<char>, os: Os) -> Seq<char> {
    spec_version_dir(version) + "/"@ + spec_binary_name(os)@
}

pub fn binary_path(version: &str, os: Os) -> (res: String)
    ensures
        res@ == spec_binary_path(version@, os),
{
    let mut s = version_dir(version);
    push_str(&mut s, "/");
    push_str(&mut s, binary_name(os));
    s
}

/// The names of assets as plain text.
pub open spec fn name_views(names: Seq<String>) -> Seq<Seq<char>> {
    names.map_values(|name: String| name@)
}

/// The first index, from `i` on, at which `names` holds `wanted`.
pub open spec fn first_match(names: Seq<Seq<char>>, wanted: Seq<char>, i: nat) -> Option<nat>
    decreases names.len() - i,
{
    if i >= names.len() {
        None
    } else if names[i as int] == wanted {
        Some(i)
    } else {
        first_match(names, wanted, i + 1)
    }
}

/// The index of the first asset with the wanted name.
pub fn find_asset(names: &Vec<String>, wanted: &str) -> (res: Option<usize>)
    ensures
        match res {
            Some(i) => i < names@.len() && names@[i as int]@ == wanted@ && forall|j: int|
                0 <= j < i ==> names@[j]@ != wanted@,
            None => forall|j: int| 0 <= j < names@.len() ==> names@[j]@ != wanted@,
        },
        match res {
            Some(i) => first_match(name_views(names@), wanted@, 0) == Some(i as nat),
            None => first_match(name_views(names@), wanted@, 0) is None,
        },
{
    let n = names.len();
    let mut i: usize = 0;
    let ghost views = name_views(names@);
    while i < n
        invariant
            i <= n == names@.len() == views.len(),
            views == name_views(names@),
            forall|j: int| 0 <= j < i ==> names@[j]@ != wanted@,
            first_match(views, wanted@, 0) == first_match(views, wanted@, i as nat),
        decreases n - i,
    {
        if str_eq(names[i].as_str(), wanted) {
            return Some(i);
        }
        i = i + 1;
    }
    None
}

/// The message when a release lacks the asset for the platform.
pub fn missing_asset_error(version: &str, asset_name: &str) -> (res: String)
    ensures
        res@ == "release "@ + version@ + " has no asset named "@ + asset_name@,
{
    let mut s = string_of("release ");
    push_str(&mut s, version);
    push_str(&mut s, " has no asset named ");
    push_str(&mut s, asset_name);
    s
}

/// The message when the version directory cannot be created.
pub fn create_dir_error(dir: &str, error: &str) -> (res: String)
    ensures
        res@ == "failed to create "@ + dir@ + ": "@ + error@,
{
    let mut s = string_of("failed to create ");
    push_str(&mut s, dir);
    push_str(&mut s, ": ");
    push_str(&mut s, error);
    s
}

/// The message when the asset cannot be downloaded.
pub fn download_error(asset_name: &str, error: &str) -> (res: String)
    ensures
        res@ == "failed to download "@ + asset_name@ + ": "@ + error@,
{
    let mut s = string_of("failed to download ");
    push_str(&mut s, asset_name);
    push_str(&mut s, ": ");
    push_str(&mut s, error);
    s
}

/// The message when the downloaded server cannot be made executable.
pub fn executable_error(path: &str, error: &str) -> (res: String)
    ensures
        res@ == "failed to make "@ + path@ + " executable: "@ + error@,
{
    let mut s = string_of("failed to make ");
    push_str(&mut s, path);
    push_str(&mut s, " executable: ");
    push_str(&mut s, error);
    s
}

/// A directory entry that may hold a previously downloaded server: the
/// directory's name, whether the server executable in it is a file, and
/// when that file was last modified (nanoseconds from the Unix epoch).
pub struct CachedCandidate {
    pub dir_name: String,
    pub is_file: bool,
    pub modified: i128,
}

/// A candidate is usable when its directory is a version directory and it
/// holds the server executable.
pub open spec fn usable(c: CachedCandidate) -> bool {
    let name = encode_utf8(c.dir_name@);
    let prefix = encode_utf8("binary-preview-lsp-"@);
    &&& c.is_file
    &&& name.len() >= prefix.len()
    &&& name.subrange(0, prefix.len() as int) =~= prefix
}

fn has_prefix(s: &str, prefix: &str) -> (res: bool)
    ensures
        res == (s.spec_bytes().len() >= prefix.spec_bytes().len() && s.spec_bytes().subrange(
            0,
            prefix.spec_bytes().len() as int,
        ) =~= prefix.spec_bytes()),
{
    let a = s.as_bytes();
    let p = prefix.as_bytes();
    let n = p.len();
    if a.len() < n {
        return false;
    }
    let mut i: usize = 0;
    while i < n
        invariant
            i <= n == p@.len() <= a@.len(),
            a@ == s.spec_bytes(),
            p@ == prefix.spec_bytes(),
            forall|j: int| 0 <= j < i ==> a@[j] == p@[j],
        decreases n - i,
    {
        if a[i] != p[i] {
            assert(a@.subrange(0, n as int)[i as int] != p@[i as int]);
            return false;
        }
        i = i + 1;
    }
    assert(a@.subrange(0, n as int) =~= p@);
    true
}

/// Picks the most recently modified usable candidate; among equally
/// recent ones the last.
pub fn pick_cached_binary(candidates: &Vec<CachedCandidate>) -> (res: Option<usize>)
    ensures
        match res {
            Some(i) => {
                &&& i < candidates@.len()
                &&& usable(candidates@[i as int])
                &&& forall|j: int|
                    0 <= j < candidates@.len() && usable(#[trigger] candidates@[j]) ==> candidates@[j].modified
                        <= candidates@[i as int].modified
                &&& forall|j: int|
                    i < j < candidates@.len() && usable(#[trigger] candidates@[j]) ==> candidates@[j].modified
                        < candidates@[i as int].modified
            },
            None => forall|j: int| 0 <= j < candidates@.len() ==> !usable(#[trigger] candidates@[j]),
        },
{
    let n = candidates.len();
    let mut best: Option<usize> = None;
    let mut i: usize = 0;
    while i < n
        invariant
            i <= n == candidates@.len(),
            match best {
                Some(b) => {
                    &&& b < i
                    &&& usable(candidates@[b as int])
                    &&& forall|j: int|
                        0 <= j < i && usable(#[trigger] candidates@[j]) ==> candidates@[j].modified
                            <= candidates@[b as int].modified
                    &&& forall|j: int|
                        b < j < i && usable(#[trigger] candidates@[j]) ==> candidates@[j].modified
                            < candidates@[b as int].modified
                },
                None => forall|j: int| 0 <= j < i ==> !usable(#[trigger] candidates@[j]),
            },
        decreases n - i,
    {
        let c = &candidates[i];
        if c.is_file && has_prefix(c.dir_name.as_str(), "binary-preview-lsp-") {
            match best {
                Some(b) => {
                    if candidates[b].modified <= c.modified {
                        best = Some(i);
                    }
                },
                None => {
                    best = Some(i);
                },
            }
        }
        i = i + 1;
    }
    best
}

/// How the editor's debug output names an operating system.
pub open spec fn os_label(os: Os) -> Seq<char> {
    match os {
        Os::Mac => "Os::Mac"@,
        Os::Linux => "Os::Linux"@,
        Os::Windows => "Os::Windows"@,
    }
}

/// How the editor's debug output names an architecture.
pub open spec fn architecture_label(architecture: Architecture) -> Seq<char> {
    match architecture {
        Architecture::Aarch64 => "Architecture::Aarch64"@,
        Architecture::X86 => "Architecture::X86"@,
        Architecture::X8664 => "Architecture::X8664"@,
    }
}

/// The message for a platform the server is not built for.
pub open spec fn unsupported_text(os: Os, architecture: Architecture) -> Seq<char> {
    "binary-preview-lsp does not support "@ + os_label(os) + "/"@ + architecture_label(
        architecture,
    )
}

/// The message for a platform the server is not built for.
pub fn unsupported_platform_error(os: Os, architecture: Architecture) -> (res: String)
    ensures
        res@ == unsupported_text(os, architecture),
{
    let mut s = string_of("binary-preview-lsp does not support ");
    match os {
        Os::Mac => push_str(&mut s, "Os::Mac"),
        Os::Linux => push_str(&mut s, "Os::Linux"),
        Os::Windows => push_str(&mut s, "Os::Windows"),
    }
    push_str(&mut s, "/");
    match architecture {
        Architecture::Aarch64 => push_str(&mut s, "Architecture::Aarch64"),
        Architecture::X86 => push_str(&mut s, "Architecture::X86"),
        Architecture::X8664 => push_str(&mut s, "Architecture::X8664"),
    }
    s
}

/// The latest release of the server, as the host reports it: its version
/// and the names of its assets, in the host's order.
pub struct Release {
    pub version: String,
    pub asset_names: Vec<String>,
}

/// What the extension asks its host to do next while it looks for the
/// server.
pub enum Request {
    /// Look for the server on the worktree's `PATH`.
    LookOnPath,
    /// Report that updates are being checked for, then fetch the latest
    /// release.
    FetchLatestRelease,
    /// Look for a server that an earlier run installed in the working
    /// directory, under this executable name.
    FindInstalled { binary_name: &'static str },
    /// Tell whether a file is at `path`.
    CheckInstalled { path: String },
    /// Report that the server is being downloaded, then create `dir` and
    /// the directories above it.
    CreateDir { dir: String },
    /// Download the release asset at index `asset` to `path`.
    Download { asset: usize, path: String },
    /// Make the file at `path` executable.
    MakeExecutable { path: String },
    /// The search is over: the path of the server, or why there is none.
    Finish(Result<String, String>),
}

/// What the host answers to a request.
pub enum Reply {
    /// The server found on `PATH`, if any.
    OnPath(Option<String>),
    /// The latest release, or why it could not be fetched.
    LatestRelease(Result<Release, String>),
    /// The path of a server installed earlier, if any.
    Installed(Option<String>),
    /// Whether the file asked about is there.
    IsFile(bool),
    /// Whether the directory was created, or why not.
    DirCreated(Result<(), String>),
    /// Whether the asset was downloaded, or why not.
    Downloaded(Result<(), String>),
    /// Whether the file was made executable, or why not.
    MadeExecutable(Result<(), String>),
}

/// Where a search for the server stands: the reply it waits for, with
/// what it has learnt so far.
pub enum Search {
    AwaitPath { os: Os, architecture: Architecture },
    AwaitRelease { os: Os, architecture: Architecture },
    AwaitInstalled { error: String },
    AwaitCheck { asset: usize, asset_name: &'static str, dir: String, path: String },
    AwaitDir { asset: usize, asset_name: &'static str, dir: String, path: String },
    AwaitDownload { asset_name: &'static str, path: String },
    AwaitExecutable { path: String },
    Done,
}

/// A request as plain values.
pub enum RequestModel {
    LookOnPath,
    FetchLatestRelease,
    FindInstalled { binary_name: Seq<char> },
    CheckInstalled { path: Seq<char> },
    CreateDir { dir: Seq<char> },
    Download { asset: nat, path: Seq<char> },
    MakeExecutable { path: Seq<char> },
    Finish(Result<Seq<char>, Seq<char>>),
}

/// A reply as plain values; a release is its version and asset names.
pub enum ReplyModel {
    OnPath(Option<Seq<char>>),
    LatestRelease(Result<(Seq<char>, Seq<Seq<char>>), Seq<char>>),
    Installed(Option<Seq<char>>),
    IsFile(bool),
    DirCreated(Result<(), Seq<char>>),
    Downloaded(Result<(), Seq<char>>),
    MadeExecutable(Result<(), Seq<char>>),
}

/// A search's stage as plain values.
pub enum SearchModel {
    AwaitPath { os: Os, architecture: Architecture },
    AwaitRelease { os: Os, architecture: Architecture },
    AwaitInstalled { error: Seq<char> },
    AwaitCheck { asset: nat, asset_name: Seq<char>, dir: Seq<char>, path: Seq<char> },
    AwaitDir { asset: nat, asset_name: Seq<char>, dir: Seq<char>, path: Seq<char> },
    AwaitDownload { asset_name: Seq<char>, path: Seq<char> },
    AwaitExecutable { path: Seq<char> },
    Done,
}

/// An optional text as plain values.
pub open spec fn text_model(t: Option<String>) -> Option<Seq<char>> {
    match t {
        Some(s) => Some(s@),
        None => None,
    }
}

/// A result whose error is a text, as plain values.
pub open spec fn outcome_model(r: Result<(), String>) -> Result<(), Seq<char>> {
    match r {
        Ok(()) => Ok(()),
        Err(e) => Err(e@),
    }
}

impl Request {
    pub open spec fn model(&self) -> RequestModel {
        match self {
            Request::LookOnPath => RequestModel::LookOnPath,
            Request::FetchLatestRelease => RequestModel::FetchLatestRelease,
            Request::FindInstalled { binary_name } => RequestModel::FindInstalled {
                binary_name: binary_name@,
            },
            Request::CheckInstalled { path } => RequestModel::CheckInstalled { path: path@ },
            Request::CreateDir { dir } => RequestModel::CreateDir { dir: dir@ },
            Request::Download { asset, path } => RequestModel::Download {
                asset: *asset as nat,
                path: path@,
            },
            Request::MakeExecutable { path } => RequestModel::MakeExecutable { path: path@ },
            Request::Finish(Ok(p)) => RequestModel::Finish(Ok(p@)),
            Request::Finish(Err(e)) => RequestModel::Finish(Err(e@)),
        }
    }
}

impl Reply {
    pub open spec fn model(&self) -> ReplyModel {
        match self {
            Reply::OnPath(p) => ReplyModel::OnPath(text_model(*p)),
            Reply::LatestRelease(Ok(r)) => ReplyModel::LatestRelease(
                Ok((r.version@, name_views(r.asset_names@))),
            ),
            Reply::LatestRelease(Err(e)) => ReplyModel::LatestRelease(Err(e@)),
            Reply::Installed(p) => ReplyModel::Installed(text_model(*p)),
            Reply::IsFile(b) => ReplyModel::IsFile(*b),
            Reply::DirCreated(r) => ReplyModel::DirCreated(outcome_model(*r)),
            Reply::Downloaded(r) => ReplyModel::Downloaded(outcome_model(*r)),
            Reply::MadeExecutable(r) => ReplyModel::MadeExecutable(outcome_model(*r)),
        }
    }
}

impl Search {
    pub open spec fn model(&self) -> SearchModel {
        match self {
            Search::AwaitPath { os, architecture } => SearchModel::AwaitPath {
                os: *os,
                architecture: *architecture,
            },
            Search::AwaitRelease { os, architecture } => SearchModel::AwaitRelease {
                os: *os,
                architecture: *architecture,
            },
            Search::AwaitInstalled { error } => SearchModel::AwaitInstalled { error: error@ },
            Search::AwaitCheck { asset, asset_name, dir, path } => SearchModel::AwaitCheck {
                asset: *asset as nat,
                asset_name: asset_name@,
                dir: dir@,
                path: path@,
            },
            Search::AwaitDir { asset, asset_name, dir, path } => SearchModel::AwaitDir {
                asset: *asset as nat,
                asset_name: asset_name@,
                dir: dir@,
                path: path@,
            },
            Search::AwaitDownload { asset_name, path } => SearchModel::AwaitDownload {
                asset_name: asset_name@,
                path: path@,
            },
            Search::AwaitExecutable { path } => SearchModel::AwaitExecutable { path: path@ },
            Search::Done => SearchModel::Done,
        }
    }
}

/// Whether a search at stage `s` waits for a reply of the kind of `r`.
pub open spec fn expects(s: SearchModel, r: ReplyModel) -> bool {
    match s {
        SearchModel::AwaitPath { .. } => r is OnPath,
        SearchModel::AwaitRelease { .. } => r is LatestRelease,
        SearchModel::AwaitInstalled { .. } => r is Installed,
        SearchModel::AwaitCheck { .. } => r is IsFile,
        SearchModel::AwaitDir { .. } => r is DirCreated,
        SearchModel::AwaitDownload { .. } => r is Downloaded,
        SearchModel::AwaitExecutable { .. } => r is MadeExecutable,
        SearchModel::Done => false,
    }
}

/// One step of the search: from its stage, the reply to its last request
/// and the server path remembered from earlier searches, the next stage,
/// the next request and the path remembered from then on.
///
/// A server on `PATH` is used first, then one found or installed before.
/// Else the latest release is fetched; when that fails, a server installed
/// by an earlier run is used if there is one. The release's asset for the
/// platform is installed under a directory named after the release's
/// version, unless its file is already there. A server found on disk or
/// installed is remembered.
pub open spec fn step(s: SearchModel, r: ReplyModel, cached: Option<Seq<char>>) -> (
    SearchModel,
    RequestModel,
    Option<Seq<char>>,
) {
    match s {
        SearchModel::AwaitPath { os, architecture } => match r {
            ReplyModel::OnPath(Some(p)) => (SearchModel::Done, RequestModel::Finish(Ok(p)), cached),
            _ => match cached {
                Some(c) => (SearchModel::Done, RequestModel::Finish(Ok(c)), cached),
                None => (
                    SearchModel::AwaitRelease { os, architecture },
                    RequestModel::FetchLatestRelease,
                    cached,
                ),
            },
        },
        SearchModel::AwaitRelease { os, architecture } => match r {
            ReplyModel::LatestRelease(Ok((version, names))) => match spec_release_asset_name(
                os,
                architecture,
            ) {
                None => (
                    SearchModel::Done,
                    RequestModel::Finish(Err(unsupported_text(os, architecture))),
                    cached,
                ),
                Some(name) => match first_match(names, name@, 0) {
                    None => (
                        SearchModel::Done,
                        RequestModel::Finish(
                            Err("release "@ + version + " has no asset named "@ + name@),
                        ),
                        cached,
                    ),
                    Some(i) => (
                        SearchModel::AwaitCheck {
                            asset: i,
                            asset_name: name@,
                            dir: spec_version_dir(version),
                            path: spec_binary_path(version, os),
                        },
                        RequestModel::CheckInstalled { path: spec_binary_path(version, os) },
                        cached,
                    ),
                },
            },
            ReplyModel::LatestRelease(Err(e)) => (
                SearchModel::AwaitInstalled { error: e },
                RequestModel::FindInstalled { binary_name: spec_binary_name(os)@ },
                cached,
            ),
            _ => (s, RequestModel::FetchLatestRelease, cached),
        },
        SearchModel::AwaitInstalled { error } => match r {
            ReplyModel::Installed(Some(p)) => (SearchModel::Done, RequestModel::Finish(Ok(p)), Some(p)),
            _ => (SearchModel::Done, RequestModel::Finish(Err(error)), cached),
        },
        SearchModel::AwaitCheck { asset, asset_name, dir, path } => match r {
            ReplyModel::IsFile(true) => (SearchModel::Done, RequestModel::Finish(Ok(path)), Some(path)),
            _ => (
                SearchModel::AwaitDir { asset, asset_name, dir, path },
                RequestModel::CreateDir { dir },
                cached,
            ),
        },
        SearchModel::AwaitDir { asset, asset_name, dir, path } => match r {
            ReplyModel::DirCreated(Err(e)) => (
                SearchModel::Done,
                RequestModel::Finish(Err("failed to create "@ + dir + ": "@ + e)),
                cached,
            ),
            _ => (
                SearchModel::AwaitDownload { asset_name, path },
                RequestModel::Download { asset, path },
                cached,
            ),
        },
        SearchModel::AwaitDownload { asset_name, path } => match r {
            ReplyModel::Downloaded(Err(e)) => (
                SearchModel::Done,
                RequestModel::Finish(Err("failed to download "@ + asset_name + ": "@ + e)),
                cached,
            ),
            _ => (SearchModel::AwaitExecutable { path }, RequestModel::MakeExecutable { path }, cached),
        },
        SearchModel::AwaitExecutable { path } => match r {
            ReplyModel::MadeExecutable(Err(e)) => (
                SearchModel::Done,
                RequestModel::Finish(Err("failed to make "@ + path + " executable: "@ + e)),
                cached,
            ),
            _ => (SearchModel::Done, RequestModel::Finish(Ok(path)), Some(path)),
        },
        SearchModel::Done => (s, RequestModel::Finish(Err(Seq::empty())), cached),
    }
}

/// How many requests a search at this stage may still make, at most.
pub open spec fn remaining_requests(s: SearchModel) -> nat {
    match s {
        SearchModel::AwaitPath { .. } => 6,
        SearchModel::AwaitRelease { .. } => 5,
        SearchModel::AwaitInstalled { .. } => 1,
        SearchModel::AwaitCheck { .. } => 4,
        SearchModel::AwaitDir { .. } => 3,
        SearchModel::AwaitDownload { .. } => 2,
        SearchModel::AwaitExecutable { .. } => 1,
        SearchModel::Done => 0,
    }
}

/// Every step of a search that gets the reply it waits for brings it
/// closer to its end, and a search asks to finish exactly when it is done:
/// no search makes more requests than `remaining_requests` allows.
pub proof fn lemma_search_ends(s: SearchModel, r: ReplyModel, cached: Option<Seq<char>>)
    requires
        expects(s, r),
    ensures
        remaining_requests(step(s, r, cached).0) < remaining_requests(s),
        (step(s, r, cached).1 is Finish) == (step(s, r, cached).0 is Done),
{
}

/// A server on `PATH` is used as it is, whatever was remembered, and
/// nothing new is remembered.
pub proof fn lemma_path_comes_first(
    os: Os,
    architecture: Architecture,
    p: Seq<char>,
    cached: Option<Seq<char>>,
)
    ensures
        step(SearchModel::AwaitPath { os, architecture }, ReplyModel::OnPath(Some(p)), cached)
            == (SearchModel::Done, RequestModel::Finish(Ok(p)), cached),
{
}

/// A server that a search finds on disk or installs is remembered, and the
/// next search uses it without fetching a release, unless a server is on
/// `PATH`.
pub proof fn lemma_found_server_is_reused(
    s: SearchModel,
    r: ReplyModel,
    cached: Option<Seq<char>>,
    p: Seq<char>,
    os: Os,
    architecture: Architecture,
)
    requires
        expects(s, r),
        !(s is AwaitPath),
        step(s, r, cached).1 == RequestModel::Finish(Ok(p)),
    ensures
        step(s, r, cached).2 == Some(p),
        step(
            SearchModel::AwaitPath { os, architecture },
            ReplyModel::OnPath(None),
            step(s, r, cached).2,
        ) == (SearchModel::Done, RequestModel::Finish(Ok(p)), Some(p)),
{
}

/// A search that fails leaves what was remembered as it was.
pub proof fn lemma_failure_remembers_nothing(
    s: SearchModel,
    r: ReplyModel,
    cached: Option<Seq<char>>,
)
    requires
        expects(s, r),
        step(s, r, cached).1 matches RequestModel::Finish(Err(_)),
    ensures
        step(s, r, cached).2 == cached,
{
}

/// A search starts by looking for the server on `PATH`.
pub fn begin(os: Os, architecture: Architecture) -> (res: (Search, Request))
    ensures
        res.0.model() == (SearchModel::AwaitPath { os, architecture }),
        res.1.model() == RequestModel::LookOnPath,
{
    (Search::AwaitPath { os, architecture }, Request::LookOnPath)
}

impl Search {
    /// Whether this stage waits for a reply of the kind of `reply`.
    pub fn accepts(&self, reply: &Reply) -> (res: bool)
        ensures
            res == expects(self.model(), reply.model()),
    {
        match self {
            Search::AwaitPath { .. } => matches!(reply, Reply::OnPath(_)),
            Search::AwaitRelease { .. } => matches!(reply, Reply::LatestRelease(_)),
            Search::AwaitInstalled { .. } => matches!(reply, Reply::Installed(_)),
            Search::AwaitCheck { .. } => matches!(reply, Reply::IsFile(_)),
            Search::AwaitDir { .. } => matches!(reply, Reply::DirCreated(_)),
            Search::AwaitDownload { .. } => matches!(reply, Reply::Downloaded(_)),
            Search::AwaitExecutable { .. } => matches!(reply, Reply::MadeExecutable(_)),
            Search::Done => false,
        }
    }
}

/// The state the extension keeps between starts of the server: the path
/// of the server it last found or installed.
pub struct BinaryPreviewExtension {
    pub cached_binary_path: Option<String>,
}

impl BinaryPreviewExtension {
    pub fn new() -> (res: BinaryPreviewExtension)
        ensures
            res.cached_binary_path is None,
    {
        BinaryPreviewExtension { cached_binary_path: None }
    }

    /// The remembered server path as plain text.
    pub open spec fn cached_model(&self) -> Option<Seq<char>> {
        text_model(self.cached_binary_path)
    }

    /// Remembers a server path, and gives it back.
    fn remember(&mut self, path: String) -> (res: String)
        ensures
            final(self).cached_model() == Some(path@),
            res@ == path@,
    {
        let copy = path.clone();
        self.cached_binary_path = Some(path);
        copy
    }

    /// Takes a search one step on: hands the reply to its last request to
    /// the search, and returns the search's next stage and request.
    pub fn advance(&mut self, search: Search, reply: Reply) -> (res: (Search, Request))
        requires
            expects(search.model(), reply.model()),
        ensures
            (res.0.model(), res.1.model(), final(self).cached_model()) == step(
                search.model(),
                reply.model(),
                old(self).cached_model(),
            ),
    {
        match search {
            Search::AwaitPath { os, architecture } => match reply {
                Reply::OnPath(Some(p)) => (Search::Done, Request::Finish(Ok(p))),
                _ => match &self.cached_binary_path {
                    Some(c) => (Search::Done, Request::Finish(Ok(c.clone()))),
                    None => (Search::AwaitRelease { os, architecture }, Request::FetchLatestRelease),
                },
            },
            Search::AwaitRelease { os, architecture } => match reply {
                Reply::LatestRelease(Ok(release)) => match release_asset_name(os, architecture) {
                    None => (
                        Search::Done,
                        Request::Finish(Err(unsupported_platform_error(os, architecture))),
                    ),
                    Some(name) => match find_asset(&release.asset_names, name) {
                        None => (
                            Search::Done,
                            Request::Finish(
                                Err(missing_asset_error(release.version.as_str(), name)),
                            ),
                        ),
                        Some(i) => {
                            let path = binary_path(release.version.as_str(), os);
                            let check = path.clone();
                            (
                                Search::AwaitCheck {
                                    asset: i,
                                    asset_name: name,
                                    dir: version_dir(release.version.as_str()),
                                    path,
                                },
                                Request::CheckInstalled { path: check },
                            )
                        },
                    },
                },
                _ => match reply {
                    Reply::LatestRelease(Err(e)) => (
                        Search::AwaitInstalled { error: e },
                        Request::FindInstalled { binary_name: binary_name(os) },
                    ),
                    _ => (Search::AwaitRelease { os, architecture }, Request::FetchLatestRelease),
                },
            },
            Search::AwaitInstalled { error } => match reply {
                Reply::Installed(Some(p)) => {
                    let kept = self.remember(p);
                    (Search::Done, Request::Finish(Ok(kept)))
                },
                _ => (Search::Done, Request::Finish(Err(error))),
            },
            Search::AwaitCheck { asset, asset_name, dir, path } => match reply {
                Reply::IsFile(true) => {
                    let kept = self.remember(path);
                    (Search::Done, Request::Finish(Ok(kept)))
                },
                _ => {
                    let create = dir.clone();
                    (
                        Search::AwaitDir { asset, asset_name, dir, path },
                        Request::CreateDir { dir: create },
                    )
                },
            },
            Search::AwaitDir { asset, asset_name, dir, path } => match reply {
                Reply::DirCreated(Err(e)) => (
                    Search::Done,
                    Request::Finish(Err(create_dir_error(dir.as_str(), e.as_str()))),
                ),
                _ => {
                    let target = path.clone();
                    (
                        Search::AwaitDownload { asset_name, path },
                        Request::Download { asset, path: target },
                    )
                },
            },
            Search::AwaitDownload { asset_name, path } => match reply {
                Reply::Downloaded(Err(e)) => (
                    Search::Done,
                    Request::Finish(Err(download_error(asset_name, e.as_str()))),
                ),
                _ => {
                    let target = path.clone();
                    (Search::AwaitExecutable { path }, Request::MakeExecutable { path: target })
                },
            },
            Search::AwaitExecutable { path } => match reply {
                Reply::MadeExecutable(Err(e)) => (
                    Search::Done,
                    Request::Finish(Err(executable_error(path.as_str(), e.as_str()))),
                ),
                _ => {
                    let kept = self.remember(path);
                    (Search::Done, Request::Finish(Ok(kept)))
                },
            },
            Search::Done => (Search::Done, Request::Finish(Err(String::new()))),
        }
    }
}

} // verus!
