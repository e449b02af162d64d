//! The decisions an editor extension makes to launch the Mojom language
//! server: which binary to run, which release asset to download for the
//! platform, and the steps of installing it. The extension host performs the
//! file system, network and process work these decisions ask for.

use vstd::prelude::*;
use vstd::string::StringExecFns;
use vstd::string::StrSliceExecFns;

verus! {

/// Name of the language server binary and of its release assets.
pub const SERVER_NAME: &'static str = "mojom-lsp";

/// The repository whose releases carry the language server binaries.
pub const SERVER_RELEASE_REPOSITORY: &'static str = "dsa28s/zed-mojom-language";

/// An operating system the extension host runs on.
#[derive(Clone, Copy, Debug, PartialEq, Eq, Structural)]
pub enum Os {
    Mac,
    Linux,
    Windows,
}

/// A processor architecture the extension host runs on.
#[derive(Clone, Copy, Debug, PartialEq, Eq, Structural)]
pub enum Architecture {
    Aarch64,
    X86,
    X8664,
}

/// The archive format of a release asset.
#[derive(Clone, Copy, Debug, PartialEq, Eq, Structural)]
pub enum DownloadedFileType {
    GzipTar,
    Zip,
}

/// The installation progress reported to the editor.
#[derive(Clone, Copy, Debug, PartialEq, Eq, Structural)]
pub enum InstallationStatus {
    CheckingForUpdate,
    Downloading,
}

/// File name of the language server binary on `os`.
pub open spec fn spec_executable_name(os: Os) -> Seq<char> {
    if os == Os::Windows {
        "mojom-lsp.exe"@
    } else {
        "mojom-lsp"@
    }
}

/// File name of the language server binary on `os`.
pub fn executable_name(os: Os) -> (r: &'static str)
    ensures
        r@ == spec_executable_name(os),
{
    if os == Os::Windows {
        "mojom-lsp.exe"
    } else {
        SERVER_NAME
    }
}

/// The architecture as it appears in asset names, for those with assets.
pub open spec fn architecture_label(arch: Architecture) -> Option<Seq<char>> {
    match arch {
        Architecture::Aarch64 => Some("aarch64"@),
        Architecture::X8664 => Some("x86_64"@),
        Architecture::X86 => None,
    }
}

/// The platform as it appears in asset names, with its archive extension and
/// format, for those with assets.
pub open spec fn platform_label(os: Os) -> Option<(Seq<char>, Seq<char>, DownloadedFileType)> {
    match os {
        Os::Mac => Some(("apple-darwin"@, "tar.gz"@, DownloadedFileType::GzipTar)),
        Os::Windows => Some(("pc-windows-msvc"@, "zip"@, DownloadedFileType::Zip)),
        Os::Linux => None,
    }
}

/// How the editor's API debug-prints an architecture.
pub open spec fn architecture_debug(arch: Architecture) -> Seq<char> {
    match arch {
        Architecture::Aarch64 => "Architecture::Aarch64"@,
        Architecture::X86 => "Architecture::X86"@,
        Architecture::X8664 => "Architecture::X8664"@,
    }
}

/// How the editor's API debug-prints an operating system.
pub open spec fn os_debug(os: Os) -> Seq<char> {
    match os {
        Os::Mac => "Os::Mac"@,
        Os::Linux => "Os::Linux"@,
        Os::Windows => "Os::Windows"@,
    }
}

/// The release asset for a platform: `mojom-lsp-{arch}-{platform}.{ext}` with
/// its archive format, or the message naming what has no asset; the
/// architecture is checked first.
pub open spec fn spec_release_asset_name(os: Os, arch: Architecture) -> Result<(Seq<char>, DownloadedFileType), Seq<char>> {
    match architecture_label(arch) {
        None => Err("unsupported Mojom LSP architecture: "@ + architecture_debug(arch)),
        Some(a) => match platform_label(os) {
            None => Err("unsupported Mojom LSP platform: "@ + os_debug(os)),
            Some((p, ext, ft)) => Ok(("mojom-lsp"@ + "-"@ + a + "-"@ + p + "."@ + ext, ft)),
        },
    }
}

fn architecture_debug_name(arch: Architecture) -> (r: &'static str)
    ensures
        r@ == architecture_debug(arch),
{
    match arch {
        Architecture::Aarch64 => "Architecture::Aarch64",
        Architecture::X86 => "Architecture::X86",
        Architecture::X8664 => "Architecture::X8664",
    }
}

fn os_debug_name(os: Os) -> (r: &'static str)
    ensures
        r@ == os_debug(os),
{
    match os {
        Os::Mac => "Os::Mac",
        Os::Linux => "Os::Linux",
        Os::Windows => "Os::Windows",
    }
}

/// The name and archive format of the release asset for the platform, or the
/// message saying that the architecture or the platform has none.
pub fn release_asset_name(os: Os, arch: Architecture) -> (r: Result<(String, DownloadedFileType), String>)
    ensures
        match (r, spec_release_asset_name(os, arch)) {
            (Ok((name, ft)), Ok((sname, sft))) => name@ == sname && ft == sft,
            (Err(m), Err(sm)) => m@ == sm,
            _ => false,
        },
{
    let architecture = match arch {
        Architecture::Aarch64 => "aarch64",
        Architecture::X8664 => "x86_64",
        Architecture::X86 => {
            let mut message = String::from_str("unsupported Mojom LSP architecture: ");
            message.append(architecture_debug_name(arch));
            return Err(message);
        },
    };
    let (platform, archive_type, file_type) = match os {
        Os::Mac => ("apple-darwin", "tar.gz", DownloadedFileType::GzipTar),
        Os::Windows => ("pc-windows-msvc", "zip", DownloadedFileType::Zip),
        Os::Linux => {
            let mut message = String::from_str("unsupported Mojom LSP platform: ");
            message.append(os_debug_name(os));
            return Err(message);
        },
    };
    let mut name = String::from_str(SERVER_NAME);
    name.append("-");
    name.append(architecture);
    name.append("-");
    name.append(platform);
    name.append(".");
    name.append(archive_type);
    Ok((name, file_type))
}


/// Whether `s` starts with `prefix`.
pub fn str_starts_with(s: &str, prefix: &str) -> (r: bool)
    ensures
        r == (prefix@.len() <= s@.len() && s@.subrange(0, prefix@.len() as int) == prefix@),
{
    let n = s.unicode_len();
    let m = prefix.unicode_len();
    if m > n {
        return false;
    }
    let mut i: usize = 0;
    while i < m
        invariant
            n == s@.len(),
            m == prefix@.len(),
            m <= n,
            i <= m,
            forall|j: int| 0 <= j < i ==> s@[j] == prefix@[j],
        decreases m - i,
    {
        if s.get_char(i) != prefix.get_char(i) {
            assert(s@.subrange(0, m as int)[i as int] != prefix@[i as int]);
            return false;
        }
        i = i + 1;
    }
    assert(s@.subrange(0, m as int) =~= prefix@);
    true
}

/// Whether `a` and `b` are the same text.
pub fn str_eq(a: &str, b: &str) -> (r: bool)
    ensures
        r == (a@ == b@),
{
    let n = a.unicode_len();
    if n != b.unicode_len() {
        return false;
    }
    let mut i: usize = 0;
    while i < n
        invariant
            n == a@.len(),
            n == b@.len(),
            i <= n,
            forall|j: int| 0 <= j < i ==> a@[j] == b@[j],
        decreases n - i,
    {
        if a.get_char(i) != b.get_char(i) {
            return false;
        }
        i = i + 1;
    }
    assert(a@ =~= b@);
    true
}

/// The directory that holds the language server of release `version`.
pub open spec fn spec_version_dir(version: Seq<char>) -> Seq<char> {
    "mojom-lsp"@ + "-"@ + version
}

/// The directory that holds the language server of release `version`:
/// `mojom-lsp-{version}`.
pub fn version_dir_name(version: &str) -> (r: String)
    ensures
        r@ == spec_version_dir(version@),
{
    let mut dir = String::from_str(SERVER_NAME);
    dir.append("-");
    dir.append(version);
    dir
}

/// The path of the language server binary inside `version_dir` on `os`.
pub open spec fn spec_binary_path(version_dir: Seq<char>, os: Os) -> Seq<char> {
    version_dir + "/"@ + spec_executable_name(os)
}

/// The path of the language server binary inside `version_dir` on `os`.
pub fn binary_path_in(version_dir: &str, os: Os) -> (r: String)
    ensures
        r@ == spec_binary_path(version_dir@, os),
{
    let mut path = String::from_str(version_dir);
    path.append("/");
    path.append(executable_name(os));
    path
}

/// A directory entry named `file_name` is an installation other than
/// `current_version_dir`: its name starts with `mojom-lsp-` and differs.
pub open spec fn spec_is_stale_version_dir(file_name: Seq<char>, current_version_dir: Seq<char>) -> bool {
    let prefix = "mojom-lsp"@ + "-"@;
    &&& prefix.len() <= file_name.len()
    &&& file_name.subrange(0, prefix.len() as int) == prefix
    &&& file_name != current_version_dir
}

/// Whether the directory entry `file_name` is an installation of the language
/// server other than `current_version_dir`, to be removed.
pub fn is_stale_version_dir(file_name: &str, current_version_dir: &str) -> (r: bool)
    ensures
        r == spec_is_stale_version_dir(file_name@, current_version_dir@),
{
    let mut prefix = String::from_str(SERVER_NAME);
    prefix.append("-");
    str_starts_with(file_name, prefix.as_str()) && !str_eq(file_name, current_version_dir)
}

/// A downloadable file of a release.
#[derive(Debug)]
pub struct ReleaseAsset {
    pub name: String,
    pub download_url: String,
}

/// A published release of the language server.
#[derive(Debug)]
pub struct Release {
    pub version: String,
    pub assets: Vec<ReleaseAsset>,
}

/// Index of the first asset, from index `i` on, called `name`.
pub open spec fn first_asset(assets: Seq<ReleaseAsset>, name: Seq<char>, i: int) -> Option<int>
    decreases assets.len() - i,
{
    if i < 0 || i >= assets.len() {
        None
    } else if assets[i].name@ == name {
        Some(i)
    } else {
        first_asset(assets, name, i + 1)
    }
}

/// Index of the first asset called `name`.
pub fn find_asset(assets: &Vec<ReleaseAsset>, name: &String) -> (r: Option<usize>)
    ensures
        r matches Some(i) ==> first_asset(assets@, name@, 0) == Some(i as int) && i < assets@.len()
            && assets@[i as int].name@ == name@,
        r is None ==> first_asset(assets@, name@, 0) is None,
{
    let n = assets.len();
    let mut i: usize = 0;
    while i < n
        invariant
            n == assets@.len(),
            i <= n,
            first_asset(assets@, name@, i as int) == first_asset(assets@, name@, 0),
        decreases n - i,
    {
        if assets[i].name == *name {
            return Some(i);
        }
        i = i + 1;
    }
    None
}

/// The binary settings the user configured for the language server.
#[derive(Debug)]
pub struct BinarySettings {
    pub path: Option<String>,
    pub arguments: Option<Vec<String>>,
}

/// A language server binary to launch: its path, arguments and environment.
#[derive(Debug)]
pub struct MojomLspBinary {
    pub path: String,
    pub args: Vec<String>,
    pub env: Vec<(String, String)>,
}

/// The binary the user configured: none unless both the binary settings and
/// their path are given; missing arguments are none, and the environment is
/// the worktree's.
pub fn configured_binary(binary: Option<BinarySettings>, env: Vec<(String, String)>) -> (r: Option<MojomLspBinary>)
    ensures
        match binary {
            Some(BinarySettings { path: Some(p), arguments }) => r matches Some(b) && b.path@ == p@
                && b.args@ == (match arguments {
                Some(a) => a@,
                None => Seq::<String>::empty(),
            }) && b.env@ == env@,
            _ => r is None,
        },
{
    let binary = match binary {
        Some(b) => b,
        None => return None,
    };
    let args = match binary.arguments {
        Some(a) => a,
        None => Vec::new(),
    };
    let path = match binary.path {
        Some(p) => p,
        None => return None,
    };
    Some(MojomLspBinary { path, args, env })
}

/// The binary found on the worktree's search path, if any, with `args` and
/// the worktree's environment.
pub fn worktree_binary(found: Option<String>, args: Vec<String>, env: Vec<(String, String)>) -> (r: Option<MojomLspBinary>)
    ensures
        match found {
            Some(p) => r matches Some(b) && b.path@ == p@ && b.args@ == args@ && b.env@ == env@,
            None => r is None,
        },
{
    match found {
        Some(path) => Some(MojomLspBinary { path, args, env }),
        None => None,
    }
}

/// The names searched for on the worktree's search path, in order: the
/// platform's binary name, then the plain server name.
pub fn worktree_binary_names(os: Os) -> (r: Vec<&'static str>)
    ensures
        r@.len() == 2,
        r@[0]@ == spec_executable_name(os),
        r@[1]@ == "mojom-lsp"@,
{
    let mut names: Vec<&'static str> = Vec::new();
    names.push(executable_name(os));
    names.push(SERVER_NAME);
    names
}

/// The previously installed binary, when its path is known and still exists,
/// with `args` and an empty environment.
pub fn cached_binary(cache: Option<String>, exists: bool, args: Vec<String>) -> (r: Option<MojomLspBinary>)
    ensures
        match cache {
            Some(p) => if exists {
                r matches Some(b) && b.path@ == p@ && b.args@ == args@ && b.env@.len() == 0
            } else {
                r is None
            },
            None => r is None,
        },
{
    match cache {
        Some(path) => if exists {
            Some(MojomLspBinary { path, args, env: Vec::new() })
        } else {
            None
        },
        None => None,
    }
}

/// Where the language server binary is looked for, in order.
#[derive(Clone, Copy, Debug, PartialEq, Eq, Structural)]
pub enum BinarySource {
    /// The path in the user's settings.
    Configured,
    /// The worktree's search path.
    Worktree,
    /// The binary this extension installed before.
    Cached,
    /// A fresh download of the latest release.
    Install,
}

/// What to do after looking for the binary in one place.
#[derive(Debug)]
pub enum SourceStep {
    /// Launch this binary.
    Use(MojomLspBinary),
    /// Look in the next place.
    Next(BinarySource),
}

/// The place looked in after `source`.
pub open spec fn spec_next_source(source: BinarySource) -> BinarySource {
    match source {
        BinarySource::Configured => BinarySource::Worktree,
        BinarySource::Worktree => BinarySource::Cached,
        BinarySource::Cached => BinarySource::Install,
        BinarySource::Install => BinarySource::Install,
    }
}

/// After looking in `source`: launch what was found there, or look in the
/// next place (settings, then search path, then the earlier installation,
/// then a fresh installation).
pub fn after_lookup(source: BinarySource, found: Option<MojomLspBinary>) -> (r: SourceStep)
    ensures
        match found {
            Some(b) => r == SourceStep::Use(b),
            None => r == SourceStep::Next(spec_next_source(source)),
        },
{
    match found {
        Some(b) => SourceStep::Use(b),
        None => SourceStep::Next(match source {
            BinarySource::Configured => BinarySource::Worktree,
            BinarySource::Worktree => BinarySource::Cached,
            BinarySource::Cached => BinarySource::Install,
            BinarySource::Install => BinarySource::Install,
        }),
    }
}


/// Where and how the language server of a release gets installed.
#[derive(Debug)]
pub struct InstallTarget {
    pub version_dir: String,
    pub binary_path: String,
    pub download_url: String,
    pub file_type: DownloadedFileType,
}

/// The install target for `release` on the platform: the release asset for
/// the platform and its `(version_dir, binary_path, download_url, file_type)`,
/// or the message saying why there is none.
pub open spec fn spec_install_target(os: Os, arch: Architecture, release: Release) -> Result<
    (Seq<char>, Seq<char>, Seq<char>, DownloadedFileType),
    Seq<char>,
> {
    match spec_release_asset_name(os, arch) {
        Err(m) => Err(m),
        Ok((name, ft)) => match first_asset(release.assets@, name, 0) {
            None => Err("no compatible Mojom LSP binary asset found for this platform; expected "@ + name),
            Some(i) => Ok((
                spec_version_dir(release.version@),
                spec_binary_path(spec_version_dir(release.version@), os),
                release.assets@[i].download_url@,
                ft,
            )),
        },
    }
}

/// The install target for `release` on the platform, or the message saying
/// that the platform has no asset in it.
pub fn install_target(os: Os, arch: Architecture, release: &Release) -> (r: Result<InstallTarget, String>)
    ensures
        match (r, spec_install_target(os, arch, *release)) {
            (Ok(t), Ok((dir, path, url, ft))) => t.version_dir@ == dir && t.binary_path@ == path
                && t.download_url@ == url && t.file_type == ft,
            (Err(m), Err(sm)) => m@ == sm,
            _ => false,
        },
{
    let (asset_name, file_type) = match release_asset_name(os, arch) {
        Ok(x) => x,
        Err(m) => return Err(m),
    };
    let index = match find_asset(&release.assets, &asset_name) {
        Some(i) => i,
        None => {
            let mut message = String::from_str(
                "no compatible Mojom LSP binary asset found for this platform; expected ",
            );
            message.append(asset_name.as_str());
            return Err(message);
        },
    };
    let version_dir = version_dir_name(release.version.as_str());
    let binary_path = binary_path_in(version_dir.as_str(), os);
    let download_url = release.assets[index].download_url.clone();
    Ok(InstallTarget { version_dir, binary_path, download_url, file_type })
}

/// `context: error`, the message of a failed step.
pub open spec fn spec_with_context(context: Seq<char>, error: Seq<char>) -> Seq<char> {
    context + ": "@ + error
}

fn with_context(context: &str, error: &str) -> (r: String)
    ensures
        r@ == spec_with_context(context@, error@),
{
    let mut message = String::from_str(context);
    message.append(": ");
    message.append(error);
    message
}

/// Where an installation of the language server stands.
#[derive(Debug)]
pub enum InstallState {
    /// Nothing done yet.
    Start,
    /// The check for updates was reported; the release is fetched next.
    ReportedChecking,
    /// The latest release is being fetched.
    FetchingRelease,
    /// Looking whether the release is installed already.
    CheckingInstalled(InstallTarget),
    /// The download was reported; it starts next.
    ReportedDownloading(InstallTarget),
    /// The release asset is being downloaded and unpacked.
    Downloading(InstallTarget),
    /// Looking whether the unpacked archive holds the binary.
    CheckingDownload(InstallTarget),
    /// The binary is being marked executable.
    MarkingExecutable(InstallTarget),
    /// The version directory is being removed after a failure with this message.
    Discarding(String),
    /// Earlier installations are being removed.
    CleaningUp(InstallTarget),
    /// The installation ended.
    Finished,
}

/// What the host reports back after performing an action.
#[derive(Debug)]
pub enum InstallEvent {
    /// A status report, a removal or a clean-up was performed.
    Done,
    /// The latest release, or the error that fetching it gave.
    Fetched(Result<Release, String>),
    /// Whether the binary path exists.
    Exists(bool),
    /// The outcome of downloading and unpacking the asset.
    Downloaded(Result<(), String>),
    /// The outcome of marking the binary executable.
    Marked(Result<(), String>),
}

/// What the host is asked to do next.
#[derive(Debug)]
pub enum InstallAction {
    SetStatus(InstallationStatus),
    FetchLatestRelease,
    CheckExists(String),
    Download { url: String, version_dir: String, file_type: DownloadedFileType },
    MakeExecutable(String),
    RemoveDir(String),
    CleanupOldVersions(String),
    /// Remember and launch the binary at this path.
    Finish(String),
    /// Give up with this message.
    Fail(String),
}

/// The event answers the action that led to the state.
pub open spec fn install_expects(state: InstallState, event: InstallEvent) -> bool {
    match (state, event) {
        (InstallState::Start, InstallEvent::Done) => true,
        (InstallState::ReportedChecking, InstallEvent::Done) => true,
        (InstallState::FetchingRelease, InstallEvent::Fetched(_)) => true,
        (InstallState::CheckingInstalled(_), InstallEvent::Exists(_)) => true,
        (InstallState::ReportedDownloading(_), InstallEvent::Done) => true,
        (InstallState::Downloading(_), InstallEvent::Downloaded(_)) => true,
        (InstallState::CheckingDownload(_), InstallEvent::Exists(_)) => true,
        (InstallState::MarkingExecutable(_), InstallEvent::Marked(_)) => true,
        (InstallState::Discarding(_), InstallEvent::Done) => true,
        (InstallState::CleaningUp(_), InstallEvent::Done) => true,
        _ => false,
    }
}

/// One step of an installation: from `state`, on `event`, the installation
/// moves to `next` and asks for `action`.
pub open spec fn install_transition(
    os: Os,
    arch: Architecture,
    state: InstallState,
    event: InstallEvent,
    next: InstallState,
    action: InstallAction,
) -> bool {
    match (state, event) {
        (InstallState::Start, InstallEvent::Done) => {
            &&& next is ReportedChecking
            &&& action == InstallAction::SetStatus(InstallationStatus::CheckingForUpdate)
        },
        (InstallState::ReportedChecking, InstallEvent::Done) => {
            &&& next is FetchingRelease
            &&& action is FetchLatestRelease
        },
        (InstallState::FetchingRelease, InstallEvent::Fetched(Err(e))) => {
            &&& next is Finished
            &&& action matches InstallAction::Fail(m)
            &&& m@ == spec_with_context("failed to fetch latest Mojom LSP release"@, e@)
        },
        (InstallState::FetchingRelease, InstallEvent::Fetched(Ok(release))) => match spec_install_target(os, arch, release) {
            Err(msg) => {
                &&& next is Finished
                &&& action matches InstallAction::Fail(m)
                &&& m@ == msg
            },
            Ok((dir, path, url, ft)) => {
                &&& next matches InstallState::CheckingInstalled(t)
                &&& t.version_dir@ == dir
                &&& t.binary_path@ == path
                &&& t.download_url@ == url
                &&& t.file_type == ft
                &&& action matches InstallAction::CheckExists(p)
                &&& p@ == path
            },
        },
        (InstallState::CheckingInstalled(t), InstallEvent::Exists(true)) => {
            &&& next is Finished
            &&& action matches InstallAction::Finish(p)
            &&& p@ == t.binary_path@
        },
        (InstallState::CheckingInstalled(t), InstallEvent::Exists(false)) => {
            &&& next == InstallState::ReportedDownloading(t)
            &&& action == InstallAction::SetStatus(InstallationStatus::Downloading)
        },
        (InstallState::ReportedDownloading(t), InstallEvent::Done) => {
            &&& next == InstallState::Downloading(t)
            &&& action matches InstallAction::Download { url, version_dir, file_type }
            &&& url@ == t.download_url@
            &&& version_dir@ == t.version_dir@
            &&& file_type == t.file_type
        },
        (InstallState::Downloading(t), InstallEvent::Downloaded(Err(e))) => {
            &&& next matches InstallState::Discarding(m)
            &&& m@ == spec_with_context("failed to download Mojom LSP"@, e@)
            &&& action matches InstallAction::RemoveDir(d)
            &&& d@ == t.version_dir@
        },
        (InstallState::Downloading(t), InstallEvent::Downloaded(Ok(_))) => {
            &&& next == InstallState::CheckingDownload(t)
            &&& action matches InstallAction::CheckExists(p)
            &&& p@ == t.binary_path@
        },
        (InstallState::CheckingDownload(t), InstallEvent::Exists(false)) => {
            &&& next matches InstallState::Discarding(m)
            &&& m@ == "downloaded Mojom LSP archive did not contain "@ + spec_executable_name(os) + " at its root"@
            &&& action matches InstallAction::RemoveDir(d)
            &&& d@ == t.version_dir@
        },
        (InstallState::CheckingDownload(t), InstallEvent::Exists(true)) => if os != Os::Windows {
            &&& next == InstallState::MarkingExecutable(t)
            &&& action matches InstallAction::MakeExecutable(p)
            &&& p@ == t.binary_path@
        } else {
            &&& next == InstallState::CleaningUp(t)
            &&& action matches InstallAction::CleanupOldVersions(d)
            &&& d@ == t.version_dir@
        },
        (InstallState::MarkingExecutable(t), InstallEvent::Marked(Err(e))) => {
            &&& next matches InstallState::Discarding(m)
            &&& m@ == spec_with_context("failed to mark Mojom LSP binary executable"@, e@)
            &&& action matches InstallAction::RemoveDir(d)
            &&& d@ == t.version_dir@
        },
        (InstallState::MarkingExecutable(t), InstallEvent::Marked(Ok(_))) => {
            &&& next == InstallState::CleaningUp(t)
            &&& action matches InstallAction::CleanupOldVersions(d)
            &&& d@ == t.version_dir@
        },
        (InstallState::Discarding(msg), InstallEvent::Done) => {
            &&& next is Finished
            &&& action matches InstallAction::Fail(m)
            &&& m@ == msg@
        },
        (InstallState::CleaningUp(t), InstallEvent::Done) => {
            &&& next is Finished
            &&& action matches InstallAction::Finish(p)
            &&& p@ == t.binary_path@
        },
        _ => false,
    }
}

/// One step of installing the latest release: report the check for updates,
/// fetch the release, pick the platform's asset, reuse an existing
/// installation or report and perform the download, make sure the archive
/// held the binary, mark it executable except on Windows, remove earlier
/// installations and finish; any failure after the download began removes the
/// version directory before failing.
pub fn install_step(os: Os, arch: Architecture, state: InstallState, event: InstallEvent) -> (r: (InstallState, InstallAction))
    requires
        install_expects(state, event),
    ensures
        install_transition(os, arch, state, event, r.0, r.1),
{
    match (state, event) {
        (InstallState::Start, InstallEvent::Done) => (
            InstallState::ReportedChecking,
            InstallAction::SetStatus(InstallationStatus::CheckingForUpdate),
        ),
        (InstallState::ReportedChecking, InstallEvent::Done) => (
            InstallState::FetchingRelease,
            InstallAction::FetchLatestRelease,
        ),
        (InstallState::FetchingRelease, InstallEvent::Fetched(fetched)) => match fetched {
            Err(e) => (
                InstallState::Finished,
                InstallAction::Fail(with_context("failed to fetch latest Mojom LSP release", e.as_str())),
            ),
            Ok(release) => match install_target(os, arch, &release) {
                Err(m) => (InstallState::Finished, InstallAction::Fail(m)),
                Ok(target) => {
                    let path = target.binary_path.clone();
                    (InstallState::CheckingInstalled(target), InstallAction::CheckExists(path))
                },
            },
        },
        (InstallState::CheckingInstalled(target), InstallEvent::Exists(exists)) => if exists {
            (InstallState::Finished, InstallAction::Finish(target.binary_path))
        } else {
            (
                InstallState::ReportedDownloading(target),
                InstallAction::SetStatus(InstallationStatus::Downloading),
            )
        },
        (InstallState::ReportedDownloading(target), InstallEvent::Done) => {
            let url = target.download_url.clone();
            let version_dir = target.version_dir.clone();
            let file_type = target.file_type;
            (InstallState::Downloading(target), InstallAction::Download { url, version_dir, file_type })
        },
        (InstallState::Downloading(target), InstallEvent::Downloaded(outcome)) => match outcome {
            Err(e) => (
                InstallState::Discarding(with_context("failed to download Mojom LSP", e.as_str())),
                InstallAction::RemoveDir(target.version_dir),
            ),
            Ok(_) => {
                let path = target.binary_path.clone();
                (InstallState::CheckingDownload(target), InstallAction::CheckExists(path))
            },
        },
        (InstallState::CheckingDownload(target), InstallEvent::Exists(exists)) => if !exists {
            let mut message = String::from_str("downloaded Mojom LSP archive did not contain ");
            message.append(executable_name(os));
            message.append(" at its root");
            (InstallState::Discarding(message), InstallAction::RemoveDir(target.version_dir))
        } else if os != Os::Windows {
            let path = target.binary_path.clone();
            (InstallState::MarkingExecutable(target), InstallAction::MakeExecutable(path))
        } else {
            let dir = target.version_dir.clone();
            (InstallState::CleaningUp(target), InstallAction::CleanupOldVersions(dir))
        },
        (InstallState::MarkingExecutable(target), InstallEvent::Marked(outcome)) => match outcome {
            Err(e) => (
                InstallState::Discarding(with_context("failed to mark Mojom LSP binary executable", e.as_str())),
                InstallAction::RemoveDir(target.version_dir),
            ),
            Ok(_) => {
                let dir = target.version_dir.clone();
                (InstallState::CleaningUp(target), InstallAction::CleanupOldVersions(dir))
            },
        },
        (InstallState::Discarding(message), InstallEvent::Done) => (InstallState::Finished, InstallAction::Fail(message)),
        (InstallState::CleaningUp(target), InstallEvent::Done) => (
            InstallState::Finished,
            InstallAction::Finish(target.binary_path),
        ),
        (_, _) => {
            proof {
                assert(false);
            }
            (InstallState::Finished, InstallAction::FetchLatestRelease)
        },
    }
}



/// Whether `event` answers the action that led to `state`.
pub fn expects_event(state: &InstallState, event: &InstallEvent) -> (r: bool)
    ensures
        r == install_expects(*state, *event),
{
    match (state, event) {
        (InstallState::Start, InstallEvent::Done) => true,
        (InstallState::ReportedChecking, InstallEvent::Done) => true,
        (InstallState::FetchingRelease, InstallEvent::Fetched(_)) => true,
        (InstallState::CheckingInstalled(_), InstallEvent::Exists(_)) => true,
        (InstallState::ReportedDownloading(_), InstallEvent::Done) => true,
        (InstallState::Downloading(_), InstallEvent::Downloaded(_)) => true,
        (InstallState::CheckingDownload(_), InstallEvent::Exists(_)) => true,
        (InstallState::MarkingExecutable(_), InstallEvent::Marked(_)) => true,
        (InstallState::Discarding(_), InstallEvent::Done) => true,
        (InstallState::CleaningUp(_), InstallEvent::Done) => true,
        _ => false,
    }
}

/// Release assets exist exactly for macOS and Windows on AArch64 and x86-64;
/// macOS assets are gzipped tarballs and Windows assets zip archives.
pub proof fn law_release_assets(os: Os, arch: Architecture)
    ensures
        spec_release_asset_name(os, arch) is Ok <==> (os != Os::Linux && arch != Architecture::X86),
        spec_release_asset_name(os, arch) matches Ok((_, ft)) ==> (ft == DownloadedFileType::Zip <==> os == Os::Windows),
{
}

/// The installation protocol: it fails right after fetching the release or
/// after removing the version directory, and every failure once the download
/// has begun removes that directory first; it finishes only with the target's
/// binary path, once that binary was seen to exist; it marks the binary
/// executable only off Windows.
pub proof fn law_install_protocol(
    os: Os,
    arch: Architecture,
    state: InstallState,
    event: InstallEvent,
    next: InstallState,
    action: InstallAction,
)
    requires
        install_transition(os, arch, state, event, next, action),
    ensures
        action is Fail ==> (state is FetchingRelease || state is Discarding),
        next is Discarding ==> (action is RemoveDir && (state is Downloading || state is CheckingDownload
            || state is MarkingExecutable)),
        action matches InstallAction::Finish(p) ==> {
            ||| state matches InstallState::CheckingInstalled(t) && event == InstallEvent::Exists(true) && p@ == t.binary_path@
            ||| state matches InstallState::CleaningUp(t) && p@ == t.binary_path@
        },
        next matches InstallState::CleaningUp(t) ==> {
            ||| state == InstallState::CheckingDownload(t) && event == InstallEvent::Exists(true)
            ||| state == InstallState::MarkingExecutable(t) && event matches InstallEvent::Marked(Ok(_))
        },
        action is MakeExecutable ==> os != Os::Windows,
{
}


/// The binary is looked for in the user's settings first, then on the
/// worktree's search path, then among earlier installations, and only then
/// downloaded; nothing is looked at twice before the download.
pub proof fn law_binary_lookup_order(source: BinarySource)
    ensures
        spec_next_source(BinarySource::Configured) == BinarySource::Worktree,
        spec_next_source(BinarySource::Worktree) == BinarySource::Cached,
        spec_next_source(BinarySource::Cached) == BinarySource::Install,
        spec_next_source(source) != BinarySource::Configured,
        spec_next_source(source) == source ==> source == BinarySource::Install,
{
}

/// A run of the installation: it starts at `Start`, and each step goes from
/// `states[k]` on `events[k]` to `states[k + 1]` asking for `actions[k]`.
pub open spec fn install_run(
    os: Os,
    arch: Architecture,
    states: Seq<InstallState>,
    events: Seq<InstallEvent>,
    actions: Seq<InstallAction>,
) -> bool {
    &&& states.len() == actions.len() + 1
    &&& events.len() == actions.len()
    &&& states[0] is Start
    &&& forall|k: int| 0 <= k < actions.len() ==> #[trigger] install_transition(
        os,
        arch,
        states[k],
        events[k],
        states[k + 1],
        actions[k],
    )
}

/// The binary path the extension remembers once the host has performed
/// `actions`, having remembered `cache` before: the path of a `Finish`, which
/// it also launches; no other action changes it.
pub open spec fn remembered_after(cache: Option<Seq<char>>, actions: Seq<InstallAction>) -> Option<Seq<char>>
    decreases actions.len(),
{
    if actions.len() == 0 {
        cache
    } else {
        match actions.last() {
            InstallAction::Finish(p) => Some(p@),
            _ => remembered_after(cache, actions.drop_last()),
        }
    }
}

proof fn lemma_remembered_without_finish(cache: Option<Seq<char>>, actions: Seq<InstallAction>)
    requires
        forall|k: int| 0 <= k < actions.len() ==> !(#[trigger] actions[k] is Finish),
    ensures
        remembered_after(cache, actions) == cache,
    decreases actions.len(),
{
    if actions.len() > 0 {
        let init = actions.drop_last();
        assert(!(actions[actions.len() - 1] is Finish));
        assert forall|k: int| 0 <= k < init.len() implies !(#[trigger] init[k] is Finish) by {
            assert(init[k] == actions[k]);
        }
        lemma_remembered_without_finish(cache, init);
    }
}

/// Over a whole run of the installation: a `Fail` or a `Finish` is the last
/// action of the run; a run that fails leaves the remembered binary as it was;
/// a run that finishes remembers exactly the path it finishes with.
pub proof fn law_install_run(
    os: Os,
    arch: Architecture,
    states: Seq<InstallState>,
    events: Seq<InstallEvent>,
    actions: Seq<InstallAction>,
    cache: Option<Seq<char>>,
)
    requires
        install_run(os, arch, states, events, actions),
    ensures
        forall|k: int| 0 <= k < actions.len() && (#[trigger] actions[k] is Fail || actions[k] is Finish)
            ==> k == actions.len() - 1,
        (exists|k: int| 0 <= k < actions.len() && #[trigger] actions[k] is Fail)
            ==> remembered_after(cache, actions) == cache,
        actions.len() > 0 ==> (actions.last() matches InstallAction::Finish(p)
            ==> remembered_after(cache, actions) == Some(p@)),
{
    assert forall|k: int| 0 <= k < actions.len() && (#[trigger] actions[k] is Fail || actions[k] is Finish)
        implies k == actions.len() - 1 by {
        assert(install_transition(os, arch, states[k], events[k], states[k + 1], actions[k]));
        assert(states[k + 1] is Finished);
        if k + 1 < actions.len() {
            let k1 = k + 1;
            assert(install_transition(os, arch, states[k1], events[k1], states[k1 + 1], actions[k1]));
        }
    }
    if exists|k: int| 0 <= k < actions.len() && #[trigger] actions[k] is Fail {
        let k = choose|k: int| 0 <= k < actions.len() && #[trigger] actions[k] is Fail;
        assert(k == actions.len() - 1);
        let init = actions.drop_last();
        assert forall|m: int| 0 <= m < init.len() implies !(#[trigger] init[m] is Finish) by {
            assert(init[m] == actions[m]);
        }
        lemma_remembered_without_finish(cache, init);
    }
}

proof fn lemma_first_asset(assets: Seq<ReleaseAsset>, name: Seq<char>, k: int)
    requires
        0 <= k,
    ensures
        first_asset(assets, name, k) matches Some(i) ==> k <= i < assets.len() && assets[i].name@ == name
            && forall|j: int| k <= j < i ==> (#[trigger] assets[j]).name@ != name,
        first_asset(assets, name, k) is None ==> forall|j: int| k <= j < assets.len() ==> (#[trigger] assets[j]).name@ != name,
    decreases assets.len() - k,
{
    if k < assets.len() && assets[k].name@ != name {
        lemma_first_asset(assets, name, k + 1);
    }
}

/// The install target of a release downloads the first asset of the release
/// whose name is the platform's release asset name, into the directory
/// `mojom-lsp-{version}` whose binary is `{directory}/{executable}`; a release
/// without such an asset has no install target.
pub proof fn law_install_target_asset(os: Os, arch: Architecture, release: Release)
    ensures
        spec_install_target(os, arch, release) matches Ok((dir, path, url, ft)) ==> {
            &&& spec_release_asset_name(os, arch) matches Ok((name, ft2))
            &&& ft == ft2
            &&& exists|i: int| 0 <= i < release.assets@.len() && (#[trigger] release.assets@[i]).name@ == name
                && release.assets@[i].download_url@ == url
                && forall|j: int| 0 <= j < i ==> (#[trigger] release.assets@[j]).name@ != name
            &&& dir == "mojom-lsp-"@ + release.version@
            &&& path == dir + "/"@ + spec_executable_name(os)
        },
        spec_release_asset_name(os, arch) matches Ok((name, _)) ==> (spec_install_target(os, arch, release) is Err
            <==> forall|i: int| 0 <= i < release.assets@.len() ==> (#[trigger] release.assets@[i]).name@ != name),
{
    if let Ok((name, _)) = spec_release_asset_name(os, arch) {
        lemma_first_asset(release.assets@, name, 0);
        reveal_strlit("mojom-lsp");
        reveal_strlit("-");
        reveal_strlit("mojom-lsp-");
        assert("mojom-lsp"@ + "-"@ =~= "mojom-lsp-"@);
        assert("mojom-lsp"@ + "-"@ + release.version@ =~= "mojom-lsp-"@ + release.version@);
        if let Some(i) = first_asset(release.assets@, name, 0) {
            assert(release.assets@[i].name@ == name);
        }
    }
}

/// The install target a state carries, if any.
pub open spec fn state_target(state: InstallState) -> Option<InstallTarget> {
    match state {
        InstallState::CheckingInstalled(t) => Some(t),
        InstallState::ReportedDownloading(t) => Some(t),
        InstallState::Downloading(t) => Some(t),
        InstallState::CheckingDownload(t) => Some(t),
        InstallState::MarkingExecutable(t) => Some(t),
        InstallState::CleaningUp(t) => Some(t),
        _ => None,
    }
}

/// The target's binary is the executable inside its version directory.
pub open spec fn binary_in_version_dir(t: InstallTarget, os: Os) -> bool {
    t.binary_path@ == t.version_dir@ + "/"@ + spec_executable_name(os)
}

proof fn lemma_install_run_targets(
    os: Os,
    arch: Architecture,
    states: Seq<InstallState>,
    events: Seq<InstallEvent>,
    actions: Seq<InstallAction>,
    m: int,
)
    requires
        install_run(os, arch, states, events, actions),
        0 <= m <= actions.len(),
    ensures
        state_target(states[m]) matches Some(t) ==> binary_in_version_dir(t, os),
    decreases m,
{
    if m > 0 {
        let k = m - 1;
        lemma_install_run_targets(os, arch, states, events, actions, k);
        assert(install_transition(os, arch, states[k], events[k], states[k + 1], actions[k]));
        if let (InstallState::FetchingRelease, InstallEvent::Fetched(Ok(release))) = (states[k], events[k]) {
            law_install_target_asset(os, arch, release);
        }
    }
}

/// Every existence check of an installation run asks about the target's
/// binary, `{version directory}/{executable}`: after the release is fetched,
/// whether it is installed already; after the download, whether the archive
/// held it.
pub proof fn law_install_checks_binary(
    os: Os,
    arch: Architecture,
    states: Seq<InstallState>,
    events: Seq<InstallEvent>,
    actions: Seq<InstallAction>,
    k: int,
)
    requires
        install_run(os, arch, states, events, actions),
        0 <= k < actions.len(),
        actions[k] is CheckExists,
    ensures
        actions[k] matches InstallAction::CheckExists(p) && state_target(states[k + 1]) matches Some(t)
            && p@ == t.binary_path@ && binary_in_version_dir(t, os),
        states[k] is Downloading ==> states[k + 1] is CheckingDownload && state_target(states[k]) == state_target(states[k + 1]),
        states[k] is FetchingRelease ==> states[k + 1] is CheckingInstalled,
{
    assert(install_transition(os, arch, states[k], events[k], states[k + 1], actions[k]));
    lemma_install_run_targets(os, arch, states, events, actions, k + 1);
}

} // verus!
