use std::io::Write;

use flate2::write::GzEncoder;
use flate2::Compression;
use mihomosh::digest::{check_digest, unpack, verify_digest, UnpackError};
use mihomosh::release::{
    ensure_linux, mihomo_platform, select_mihomo_asset, GithubAsset, GithubRelease, PlatformError,
    ReleaseError,
};
use sha2::{Digest, Sha256};

fn asset(name: &str, url: &str) -> GithubAsset {
    GithubAsset {
        name: name.to_owned(),
        digest: None,
        browser_download_url: url.to_owned(),
    }
}

#[test]
fn select_mihomo_asset_uses_exact_linux_asset_name() {
    for arch in ["x86_64", "aarch64", "arm", "x86"] {
        let release = GithubRelease {
            tag_name: "v1.2.3".to_owned(),
            assets: vec![
                GithubAsset {
                    name: "mihomo-linux-arm64-v1.2.3.deb".to_owned(),
                    digest: None,
                    browser_download_url: "deb".to_owned(),
                },
                GithubAsset {
                    name: format!(
                        "mihomo-linux-{}-v1.2.3.gz",
                        mihomo_platform("linux", arch).unwrap().arch
                    ),
                    digest: Some("sha256:test".to_owned()),
                    browser_download_url: "gz".to_owned(),
                },
            ],
        };

        assert_eq!(
            select_mihomo_asset(&release, "linux", arch)
                .unwrap()
                .browser_download_url,
            "gz"
        );
    }
}

#[test]
fn verify_digest_checks_sha256() {
    let data = b"mihomo";
    let digest = format!("sha256:{}", hex::encode(Sha256::digest(data)));

    verify_digest(data, Some(&digest)).unwrap();
    assert!(verify_digest(data, Some("sha256:bad")).is_err());
}

#[test]
fn digest_of_nothing_is_known() {
    let digest = "sha256:e3b0c44298fc1c149afbf4c8996fb92427ae41e4649b934ca495991b7852b855";
    verify_digest(b"", Some(digest)).unwrap();
    let error = verify_digest(b"", Some("sha256:bad")).unwrap_err();
    assert_eq!(
        error.message(),
        "sha256 mismatch: expected `bad`, got `e3b0c44298fc1c149afbf4c8996fb92427ae41e4649b934ca495991b7852b855`"
    );
}

#[test]
fn only_a_sha256_digest_is_checked() {
    verify_digest(b"a", None).unwrap();
    verify_digest(b"a", Some("")).unwrap();
    verify_digest(b"a", Some("sha512:bad")).unwrap();
    verify_digest(b"a", Some("SHA256:bad")).unwrap();
    assert!(verify_digest(b"a", Some("sha256:")).is_err());
}

#[test]
fn digests_are_compared_letter_by_letter() {
    check_digest("ab".to_owned(), Some("sha256:ab")).unwrap();
    check_digest("ab".to_owned(), None).unwrap();
    let error = check_digest("ab".to_owned(), Some("sha256:AB")).unwrap_err();
    assert_eq!(error.expected, "AB");
    assert_eq!(error.actual, "ab");
}

#[test]
fn download_is_checked_and_unpacked() {
    let mut encoder = GzEncoder::new(Vec::new(), Compression::default());
    encoder.write_all(b"binary").unwrap();
    let packed = encoder.finish().unwrap();
    assert_eq!(unpack(&packed, None).unwrap(), b"binary");
    let digest = format!("sha256:{}", hex::encode(Sha256::digest(&packed)));
    assert_eq!(unpack(&packed, Some(&digest)).unwrap(), b"binary");
    assert!(matches!(
        unpack(&packed, Some("sha256:bad")),
        Err(UnpackError::Mismatch(_))
    ));
    assert!(matches!(
        unpack(b"binary", None),
        Err(UnpackError::Corrupt(_))
    ));
    assert!(matches!(
        unpack(&packed[..packed.len() - 1], None),
        Err(UnpackError::Corrupt(_))
    ));
}

#[test]
fn machines_have_their_spelling() {
    for (arch, spelled) in [
        ("x86_64", "amd64"),
        ("aarch64", "arm64"),
        ("arm", "armv7"),
        ("x86", "386"),
    ] {
        let platform = mihomo_platform("linux", arch).unwrap();
        assert_eq!((platform.os, platform.arch), ("linux", spelled));
    }
}

#[test]
fn other_machines_are_refused() {
    assert!(ensure_linux("linux").is_ok());
    assert!(matches!(
        ensure_linux("windows"),
        Err(PlatformError::NotLinux)
    ));
    let release = GithubRelease {
        tag_name: "v1".to_owned(),
        assets: vec![],
    };
    let message = |os: &str, arch: &str| match select_mihomo_asset(&release, os, arch) {
        Ok(_) => String::new(),
        Err(error) => error.message(),
    };
    assert_eq!(
        message("macos", "x86_64"),
        "`mihomosh init` currently supports Linux/systemd only"
    );
    assert_eq!(
        message("linux", "riscv64"),
        "Unsupported Linux architecture `riscv64`"
    );
    assert_eq!(
        message("linux", "x86"),
        "Mihomo release `v1` does not contain `mihomo-linux-386-v1.gz`"
    );
    assert!(matches!(
        select_mihomo_asset(&release, "linux", "x86"),
        Err(ReleaseError::MissingAsset { .. })
    ));
    assert!(matches!(
        select_mihomo_asset(&release, "linux", "mips"),
        Err(ReleaseError::Platform(PlatformError::UnsupportedArch(_)))
    ));
}

#[test]
fn first_file_with_the_name_is_chosen() {
    let release = GithubRelease {
        tag_name: "v1".to_owned(),
        assets: vec![
            asset("mihomo-linux-amd64-v1.gz.sig", "sig"),
            asset("mihomo-linux-amd64-v1.gz", "one"),
            asset("mihomo-linux-amd64-v1.gz", "two"),
        ],
    };
    assert_eq!(
        select_mihomo_asset(&release, "linux", "x86_64")
            .unwrap()
            .browser_download_url,
        "one"
    );
}
