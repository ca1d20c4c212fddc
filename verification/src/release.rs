//! Which file of a Mihomo release goes with this machine.

use vstd::prelude::*;
use crate::text;

verus! {

/// A Mihomo release.
pub struct GithubRelease {
    /// The name of the version.
    pub tag_name: String,
    /// The files of the release.
    pub assets: Vec<GithubAsset>,
}

/// A file of a release.
pub struct GithubAsset {
    /// The name of the file.
    pub name: String,
    /// The digest of the file, with the kind of digest in front.
    pub digest: Option<String>,
    /// Where the file can be had.
    pub browser_download_url: String,
}

/// A machine, as the names of release files spell it.
pub struct MihomoPlatform {
    /// The operating system.
    pub os: &'static str,
    /// The architecture.
    pub arch: &'static str,
}

/// Why nothing can be installed on a machine.
#[derive(Debug)]
pub enum PlatformError {
    /// The operating system is not Linux.
    NotLinux,
    /// There is no release for this architecture.
    UnsupportedArch(String),
}

/// What a message about `error` reads.
pub open spec fn platform_message(error: PlatformError) -> Seq<char> {
    match error {
        PlatformError::NotLinux => "`mihomosh init` currently supports Linux/systemd only"@,
        PlatformError::UnsupportedArch(arch) => "Unsupported Linux architecture `"@ + arch@ + "`"@,
    }
}

impl PlatformError {
    /// The message for the user.
    pub fn message(&self) -> (r: String)
        ensures
            r@ == platform_message(*self),
    {
        match self {
            PlatformError::NotLinux => {
                "`mihomosh init` currently supports Linux/systemd only".to_owned()
            },
            PlatformError::UnsupportedArch(arch) => {
                let mut r = "Unsupported Linux architecture `".to_owned();
                r.append(arch.as_str());
                r.append("`");
                r
            },
        }
    }
}

/// Why no file can be chosen from a release.
#[derive(Debug)]
pub enum ReleaseError {
    /// There is no release for this machine.
    Platform(PlatformError),
    /// The release `tag` does not hold the file `expected`.
    MissingAsset { tag: String, expected: String },
}

impl ReleaseError {
    /// The message for the user.
    pub fn message(&self) -> (r: String)
        ensures
            r@ == match *self {
                ReleaseError::Platform(error) => platform_message(error),
                ReleaseError::MissingAsset { tag, expected } => "Mihomo release `"@ + tag@
                    + "` does not contain `"@ + expected@ + "`"@,
            },
    {
        match self {
            ReleaseError::Platform(error) => error.message(),
            ReleaseError::MissingAsset { tag, expected } => {
                let mut r = "Mihomo release `".to_owned();
                r.append(tag.as_str());
                r.append("` does not contain `");
                r.append(expected.as_str());
                r.append("`");
                r
            },
        }
    }
}

/// How release files spell the architecture `arch`.
pub open spec fn arch_name(arch: Seq<char>) -> Option<Seq<char>> {
    if arch == "x86_64"@ {
        Some("amd64"@)
    } else if arch == "aarch64"@ {
        Some("arm64"@)
    } else if arch == "arm"@ {
        Some("armv7"@)
    } else if arch == "x86"@ {
        Some("386"@)
    } else {
        None
    }
}

/// Whether the operating system `os` is Linux.
pub fn ensure_linux(os: &str) -> (r: Result<(), PlatformError>)
    ensures
        r is Ok <==> os@ == "linux"@,
        r matches Err(error) ==> error is NotLinux,
{
    if text::same(os, "linux") {
        Ok(())
    } else {
        Err(PlatformError::NotLinux)
    }
}

/// How release files spell the machine with operating system `os` and architecture `arch`.
pub fn mihomo_platform(os: &str, arch: &str) -> (r: Result<MihomoPlatform, PlatformError>)
    ensures
        match r {
            Ok(platform) => {
                &&& os@ == "linux"@
                &&& platform.os@ == "linux"@
                &&& arch_name(arch@) == Some(platform.arch@)
            },
            Err(PlatformError::NotLinux) => os@ != "linux"@,
            Err(PlatformError::UnsupportedArch(name)) => {
                &&& os@ == "linux"@
                &&& arch_name(arch@) is None
                &&& name@ == arch@
            },
        },
{
    match ensure_linux(os) {
        Ok(()) => {},
        Err(error) => {
            return Err(error);
        },
    }
    proof {
        reveal_strlit("x86_64");
        reveal_strlit("aarch64");
        reveal_strlit("arm");
        reveal_strlit("x86");
    }
    let arch: &'static str = if text::same(arch, "x86_64") {
        "amd64"
    } else if text::same(arch, "aarch64") {
        "arm64"
    } else if text::same(arch, "arm") {
        "armv7"
    } else if text::same(arch, "x86") {
        "386"
    } else {
        return Err(PlatformError::UnsupportedArch(arch.to_owned()));
    };
    Ok(MihomoPlatform { os: "linux", arch })
}

/// The name of the file of version `tag` for one machine.
pub open spec fn asset_name(os: Seq<char>, arch: Seq<char>, tag: Seq<char>) -> Seq<char> {
    "mihomo-"@ + os + "-"@ + arch + "-"@ + tag + ".gz"@
}

/// The first of `assets` at `from` or after that has the name `name`, or the number of assets
/// if none has.
pub open spec fn first_named(assets: Seq<GithubAsset>, name: Seq<char>, from: int) -> int
    decreases assets.len() - from,
{
    if from >= assets.len() {
        assets.len() as int
    } else if assets[from].name@ == name {
        from
    } else {
        first_named(assets, name, from + 1)
    }
}

/// The file of `release` that goes with the machine with operating system `os` and
/// architecture `arch`: the one whose name is exactly the expected one.
pub fn select_mihomo_asset<'a>(release: &'a GithubRelease, os: &str, arch: &str) -> (r: Result<
    &'a GithubAsset,
    ReleaseError,
>)
    ensures
        r matches Ok(asset) ==> os@ == "linux"@ && release.assets@.contains(*asset) && asset.name@
            == "mihomo-linux-"@ + arch_name(arch@)->0 + "-"@ + release.tag_name@ + ".gz"@,
        r is Err && os@ == "linux"@ && arch_name(arch@) is Some ==> forall|i: int|
            0 <= i < release.assets@.len() ==> (#[trigger] release.assets@[i]).name@
                != "mihomo-linux-"@ + arch_name(arch@)->0 + "-"@ + release.tag_name@ + ".gz"@,
        if os@ != "linux"@ {
            r matches Err(ReleaseError::Platform(PlatformError::NotLinux))
        } else {
            match arch_name(arch@) {
                None => r matches Err(
                    ReleaseError::Platform(PlatformError::UnsupportedArch(name)),
                ) && name@ == arch@,
                Some(spelled) => {
                    let wanted = asset_name("linux"@, spelled, release.tag_name@);
                    let found = first_named(release.assets@, wanted, 0);
                    if found < release.assets@.len() {
                        r matches Ok(asset) && *asset == release.assets@[found]
                    } else {
                        r matches Err(ReleaseError::MissingAsset { tag, expected }) && tag@
                            == release.tag_name@ && expected@ == wanted
                    }
                },
            }
        },
{
    let platform = match mihomo_platform(os, arch) {
        Ok(platform) => platform,
        Err(error) => {
            return Err(ReleaseError::Platform(error));
        },
    };
    proof {
        name_of_a_linux_file(platform.arch@, release.tag_name@);
        chosen_asset_has_the_name(
            release.assets@,
            asset_name("linux"@, platform.arch@, release.tag_name@),
            0,
        );
    }
    let mut expected = "mihomo-".to_owned();
    expected.append(platform.os);
    expected.append("-");
    expected.append(platform.arch);
    expected.append("-");
    expected.append(release.tag_name.as_str());
    expected.append(".gz");
    let mut i: usize = 0;
    while i < release.assets.len()
        invariant
            i <= release.assets@.len(),
            os@ == "linux"@,
            arch_name(arch@) == Some(platform.arch@),
            expected@ == asset_name("linux"@, platform.arch@, release.tag_name@),
            expected@ == "mihomo-linux-"@ + platform.arch@ + "-"@ + release.tag_name@ + ".gz"@,
            first_named(release.assets@, expected@, 0) == first_named(
                release.assets@,
                expected@,
                i as int,
            ),
        decreases release.assets.len() - i,
    {
        if release.assets[i].name == expected {
            assert(release.assets@.contains(release.assets@[i as int]));
            return Ok(&release.assets[i]);
        }
        i = i + 1;
    }
    Err(ReleaseError::MissingAsset { tag: release.tag_name.clone(), expected })
}

/// The file that is chosen has the expected name, and no file before it has.
pub proof fn chosen_asset_has_the_name(assets: Seq<GithubAsset>, name: Seq<char>, from: int)
    requires
        0 <= from <= assets.len(),
    ensures
        ({
            let found = first_named(assets, name, from);
            &&& from <= found <= assets.len()
            &&& found < assets.len() ==> assets[found].name@ == name
            &&& forall|i: int| from <= i < found ==> (#[trigger] assets[i]).name@ != name
        }),
    decreases assets.len() - from,
{
    if from < assets.len() && assets[from].name@ != name {
        chosen_asset_has_the_name(assets, name, from + 1);
    }
}

/// The name of a release file for Linux.
pub proof fn name_of_a_linux_file(arch: Seq<char>, tag: Seq<char>)
    ensures
        asset_name("linux"@, arch, tag) == "mihomo-linux-"@ + arch + "-"@ + tag + ".gz"@,
{
    reveal_strlit("mihomo-");
    reveal_strlit("linux");
    reveal_strlit("-");
    reveal_strlit("mihomo-linux-");
    assert("mihomo-"@ + "linux"@ + "-"@ =~= "mihomo-linux-"@);
}

/// Two architectures are not spelled alike, and their files have different names.
pub proof fn machines_are_told_apart(a: Seq<char>, b: Seq<char>, tag: Seq<char>)
    requires
        arch_name(a) is Some,
        arch_name(b) is Some,
        asset_name("linux"@, arch_name(a)->0, tag) == asset_name("linux"@, arch_name(b)->0, tag),
    ensures
        a == b,
{
    reveal_strlit("amd64");
    reveal_strlit("arm64");
    reveal_strlit("armv7");
    reveal_strlit("386");
    reveal_strlit("-");
    reveal_strlit(".gz");
    let x = arch_name(a)->0;
    let y = arch_name(b)->0;
    name_of_a_linux_file(x, tag);
    name_of_a_linux_file(y, tag);
    let one = asset_name("linux"@, x, tag);
    let two = asset_name("linux"@, y, tag);
    let n = "mihomo-linux-"@.len() as int;
    assert(one.len() == n + x.len() + 1 + tag.len() + 3);
    assert(two.len() == n + y.len() + 1 + tag.len() + 3);
    assert(x =~= one.subrange(n, n + x.len()));
    assert(y =~= two.subrange(n, n + y.len()));
    assert("amd64"@[2] == 'd' && "arm64"@[2] == 'm' && "armv7"@[2] == 'm');
    assert("arm64"@[3] == '6' && "armv7"@[3] == 'v');
}

/// There are releases for four architectures.
pub proof fn other_machines_have_no_release(arch: Seq<char>)
    requires
        arch != "x86_64"@,
        arch != "aarch64"@,
        arch != "arm"@,
        arch != "x86"@,
    ensures
        arch_name(arch) is None,
{
}

} // verus!
