use std::path::{Component, Path, PathBuf};

use mihomosh::install::{
    build_systemd_unit, check_status, removal, run_systemctl, systemd_unit, test_mihomo_config,
    user_agent, CommandLine, InitAction, InitStage, Removal,
};
use mihomosh::paths::{
    apply_root, decimal_text, parent_dir, path_to_str, temporary_file_name, temporary_path,
    web_ui_parent, InitOverrides, InitPaths, PathError,
};
use mihomosh::release::PlatformError;

fn sample() -> InitPaths {
    InitPaths {
        config_dir: PathBuf::from("/etc/mihomo"),
        config_path: PathBuf::from("/etc/mihomo/config.yaml"),
        binary_path: PathBuf::from("/usr/local/bin/mihomo"),
        systemd_unit_path: PathBuf::from("/etc/systemd/system/mihomo.service"),
        web_ui_dir: PathBuf::from("/etc/mihomo/web-ui"),
        systemctl_path: PathBuf::from("systemctl"),
    }
}

fn no_overrides() -> InitOverrides {
    InitOverrides {
        root: None,
        config: None,
        binary: None,
        unit: None,
        systemctl: None,
    }
}

#[test]
fn build_systemd_unit_uses_config_and_binary_paths() {
    let paths = InitPaths {
        config_dir: PathBuf::from("/etc/mihomo"),
        config_path: PathBuf::from("/etc/mihomo/config.yaml"),
        binary_path: PathBuf::from("/usr/local/bin/mihomo"),
        systemd_unit_path: PathBuf::from("/etc/systemd/system/mihomo.service"),
        web_ui_dir: PathBuf::from("/etc/mihomo/web-ui"),
        systemctl_path: PathBuf::from("systemctl"),
    };

    let unit = build_systemd_unit(&paths);

    assert!(unit
        .contains("ExecStart=/usr/local/bin/mihomo -d /etc/mihomo -f /etc/mihomo/config.yaml\n"));
    assert!(unit.contains("WantedBy=multi-user.target\n"));
}

#[test]
fn unit_reads_line_by_line() {
    assert_eq!(
        systemd_unit("b", "d", "c"),
        "[Unit]\n\
Description=Mihomo daemon\n\
After=network-online.target\n\
Wants=network-online.target\n\
\n\
[Service]\n\
Type=simple\n\
ExecStart=b -d d -f c\n\
Restart=on-failure\n\
RestartSec=5\n\
LimitNOFILE=1048576\n\
\n\
[Install]\n\
WantedBy=multi-user.target\n"
    );
}

#[test]
fn usual_paths() {
    let paths = InitPaths::new(PathBuf::from("/etc/mihomo/config.yaml"), &no_overrides());
    assert_eq!(paths.config_path, Path::new("/etc/mihomo/config.yaml"));
    assert_eq!(paths.config_dir, Path::new("/etc/mihomo"));
    assert_eq!(paths.binary_path, Path::new("/usr/local/bin/mihomo"));
    assert_eq!(
        paths.systemd_unit_path,
        Path::new("/etc/systemd/system/mihomo.service")
    );
    assert_eq!(paths.web_ui_dir, Path::new("/etc/mihomo/web-ui"));
    assert_eq!(paths.systemctl_path, Path::new("systemctl"));
    assert_eq!(paths.geoip_db(), Path::new("/etc/mihomo/geoip.metadb"));
}

#[test]
fn usual_paths_below_a_root() {
    let overrides = InitOverrides {
        root: Some(PathBuf::from("/tmp/root")),
        ..no_overrides()
    };
    let paths = InitPaths::new(PathBuf::from("/etc/mihomo/config.yaml"), &overrides);
    assert_eq!(
        paths.config_path,
        Path::new("/tmp/root/etc/mihomo/config.yaml")
    );
    assert_eq!(paths.config_dir, Path::new("/tmp/root/etc/mihomo"));
    assert_eq!(
        paths.binary_path,
        Path::new("/tmp/root/usr/local/bin/mihomo")
    );
    assert_eq!(
        paths.systemd_unit_path,
        Path::new("/tmp/root/etc/systemd/system/mihomo.service")
    );
    assert_eq!(paths.web_ui_dir, Path::new("/tmp/root/etc/mihomo/web-ui"));
    assert_eq!(paths.systemctl_path, Path::new("systemctl"));
}

#[test]
fn chosen_paths_are_taken_as_they_are() {
    let overrides = InitOverrides {
        root: Some(PathBuf::from("/tmp/root")),
        config: Some(PathBuf::from("/a/c.yaml")),
        binary: Some(PathBuf::from("/a/m")),
        unit: Some(PathBuf::from("/a/m.service")),
        systemctl: Some(PathBuf::from("/a/ctl")),
    };
    let paths = InitPaths::new(PathBuf::from("/etc/mihomo/config.yaml"), &overrides);
    assert_eq!(paths.config_path, Path::new("/a/c.yaml"));
    assert_eq!(paths.config_dir, Path::new("/a"));
    assert_eq!(paths.binary_path, Path::new("/a/m"));
    assert_eq!(paths.systemd_unit_path, Path::new("/a/m.service"));
    assert_eq!(paths.web_ui_dir, Path::new("/a/web-ui"));
    assert_eq!(paths.systemctl_path, Path::new("/a/ctl"));
}

#[test]
fn configuration_without_a_parent_has_the_usual_directory() {
    let overrides = InitOverrides {
        root: Some(PathBuf::from("/r")),
        config: Some(PathBuf::from("/")),
        ..no_overrides()
    };
    let paths = InitPaths::new(PathBuf::from("x"), &overrides);
    assert_eq!(paths.config_dir, Path::new("/r/etc/mihomo"));
}

#[test]
fn root_goes_in_front() {
    let root = Path::new("/r");
    assert_eq!(apply_root(None, Path::new("/a/b")), Path::new("/a/b"));
    assert_eq!(
        apply_root(Some(root), Path::new("/a/b")),
        Path::new("/r/a/b")
    );
    assert_eq!(apply_root(Some(root), Path::new("a/b")), Path::new("/r/a/b"));
    for root in ["/r", "r", ".", "./r/", "/", "../r"] {
        for path in ["a", "a/b/", "./a", "a/./b", "..", "", "a//b"] {
            let root = Path::new(root);
            let relative = apply_root(Some(root), Path::new(path));
            let absolute = apply_root(Some(root), Path::new(&format!("/{path}")));
            assert_eq!(relative, absolute);
            assert!(relative.starts_with(root));
            let mut expected: Vec<Component> = root.components().collect();
            expected.extend(
                Path::new(path)
                    .components()
                    .filter(|part| *part != Component::CurDir),
            );
            assert_eq!(relative.components().collect::<Vec<_>>(), expected);
        }
    }
}

#[test]
fn empty_root_takes_the_slash_away() {
    let root = Path::new("");
    for path in ["a", "a/b/", "a/./b", "..", "", "a//b"] {
        let relative = apply_root(Some(root), Path::new(path));
        let absolute = apply_root(Some(root), Path::new(&format!("/{path}")));
        assert_eq!(relative, Path::new(path));
        assert_eq!(absolute, relative);
    }
    assert_eq!(apply_root(Some(root), Path::new("/./a")), Path::new("a"));
    assert_eq!(apply_root(Some(root), Path::new("./a")), Path::new("./a"));
    assert_eq!(
        apply_root(Some(Path::new("r")), Path::new("/.//./a")).to_str(),
        Some("r/a")
    );
}

#[test]
fn directories_of_paths() {
    assert_eq!(parent_dir(Path::new("/a/b")).unwrap(), Path::new("/a"));
    assert_eq!(
        parent_dir(Path::new("/")).unwrap_err().message(),
        "Path `/` has no parent"
    );
    assert_eq!(web_ui_parent(Path::new("/a/b")).unwrap(), Path::new("/a"));
    assert_eq!(
        web_ui_parent(Path::new("/")).unwrap_err().message(),
        "Web UI path `/` has no parent"
    );
}

#[test]
fn temporary_file_stands_beside() {
    assert_eq!(
        temporary_path(Path::new("/usr/bin/mihomo"), 42).unwrap(),
        Path::new("/usr/bin/.mihomo.42.tmp")
    );
    assert_eq!(
        temporary_path(Path::new("/usr/.."), 7).unwrap(),
        Path::new("/usr/.mihomo.7.tmp")
    );
    for (path, dir, name) in [
        ("a", "", ".a.1.tmp"),
        ("a/b/.", "a", ".b.1.tmp"),
        ("/é/x y//", "/é", ".x y.1.tmp"),
        (".", "", ".mihomo.1.tmp"),
        ("./a", ".", ".a.1.tmp"),
    ] {
        let temporary = temporary_path(Path::new(path), 1).unwrap();
        assert_eq!(temporary.parent(), Some(Path::new(dir)));
        assert_eq!(temporary.file_name().unwrap(), name);
    }
    assert!(temporary_path(Path::new(""), 1).is_err());
    assert_eq!(
        temporary_path(Path::new("/"), 7).unwrap_err().message(),
        "Path `/` has no parent"
    );
}

#[test]
fn temporary_file_names() {
    assert_eq!(temporary_file_name(Some("a"), 10), ".a.10.tmp");
    assert_eq!(temporary_file_name(None, 0), ".mihomo.0.tmp");
}

#[test]
fn numbers_are_written_in_decimal() {
    for n in [0, 1, 9, 10, 90, 100, 1234567890, u32::MAX] {
        assert_eq!(decimal_text(n), n.to_string());
    }
}

#[test]
fn text_of_a_path() {
    assert_eq!(path_to_str(Path::new("/ä/b")).unwrap(), "/ä/b");
    assert_eq!(
        PathError::NotUtf8("/a".to_owned()).message(),
        "Path `/a` is not valid UTF-8"
    );
}

fn parts(command: &CommandLine) -> (&Path, Vec<&str>) {
    (
        command.program.as_path(),
        command.args.iter().map(|arg| arg.as_str()).collect(),
    )
}

#[test]
fn test_runs_the_binary_on_the_configuration() {
    let command = test_mihomo_config(&sample()).unwrap();
    assert_eq!(
        parts(&command),
        (
            Path::new("/usr/local/bin/mihomo"),
            vec!["-t", "-d", "/etc/mihomo", "-f", "/etc/mihomo/config.yaml"]
        )
    );
}

#[test]
fn systemctl_gets_the_arguments() {
    let command = run_systemctl(&sample(), &["a", "b c"]);
    assert_eq!(parts(&command), (Path::new("systemctl"), vec!["a", "b c"]));
}

#[test]
fn failed_command_is_named() {
    assert!(check_status(Path::new("/bin/x"), true, "exit status: 0").is_ok());
    let error = check_status(Path::new("/bin/x"), false, "exit status: 1").unwrap_err();
    assert_eq!(
        error.message(),
        "Command `/bin/x` failed with status exit status: 1"
    );
}

#[test]
fn places_are_made_free() {
    assert!(matches!(removal(false, false), Removal::Nothing));
    assert!(matches!(removal(false, true), Removal::Nothing));
    assert!(matches!(removal(true, true), Removal::Directory));
    assert!(matches!(removal(true, false), Removal::File));
}

#[test]
fn program_names_itself() {
    assert_eq!(user_agent("1.2.3"), "mihomosh/v1.2.3 (clash-verge)");
}

#[test]
fn stages_follow_each_other() {
    let order = [
        InitStage::PrepareConfig,
        InitStage::WriteConfig,
        InitStage::InstallBinary,
        InitStage::InstallWebUi,
        InitStage::InstallGeoipDb,
        InitStage::WriteUnit,
        InitStage::TestConfig,
        InitStage::ReloadUnits,
        InitStage::EnableService,
        InitStage::RestartService,
        InitStage::Done,
    ];
    assert_eq!(InitStage::first("linux").unwrap(), order[0]);
    for i in 0..10 {
        assert_eq!(order[i].after(true), Some(order[i + 1]));
        assert_eq!(order[i].after(false), None);
    }
    assert_eq!(InitStage::Done.after(true), Some(InitStage::Done));
    assert_eq!(InitStage::Done.after(false), Some(InitStage::Done));
    assert!(matches!(
        InitStage::first("macos"),
        Err(PlatformError::NotLinux)
    ));
}

#[test]
fn stages_say_what_to_do() {
    let paths = sample();
    let run = |stage: InitStage| match stage.action(&paths) {
        Ok(InitAction::Run(command)) => command.args.join(" "),
        _ => String::new(),
    };
    assert_eq!(run(InitStage::ReloadUnits), "daemon-reload");
    assert_eq!(run(InitStage::EnableService), "enable mihomo");
    assert_eq!(run(InitStage::RestartService), "restart mihomo");
    assert_eq!(
        run(InitStage::TestConfig),
        "-t -d /etc/mihomo -f /etc/mihomo/config.yaml"
    );
    match InitStage::WriteUnit.action(&paths) {
        Ok(InitAction::WriteUnit(unit)) => assert_eq!(unit, build_systemd_unit(&paths)),
        _ => panic!("no unit"),
    }
    assert!(matches!(
        InitStage::PrepareConfig.action(&paths),
        Ok(InitAction::PrepareConfig)
    ));
    assert!(matches!(
        InitStage::WriteConfig.action(&paths),
        Ok(InitAction::WriteConfig)
    ));
    assert!(matches!(
        InitStage::InstallBinary.action(&paths),
        Ok(InitAction::InstallBinary)
    ));
    assert!(matches!(
        InitStage::InstallWebUi.action(&paths),
        Ok(InitAction::InstallWebUi)
    ));
    assert!(matches!(
        InitStage::InstallGeoipDb.action(&paths),
        Ok(InitAction::InstallGeoipDb)
    ));
    assert!(matches!(
        InitStage::Done.action(&paths),
        Ok(InitAction::Finish)
    ));
}

#[test]
fn stages_say_what_failed() {
    let paths = sample();
    let said = |stage: InitStage| stage.context(&paths);
    let text = |text: &str| Some(text.to_owned());
    assert_eq!(
        said(InitStage::PrepareConfig),
        text("Fail to prepare Mihomo config")
    );
    assert_eq!(
        said(InitStage::WriteConfig),
        text("Fail to write Mihomo config `/etc/mihomo/config.yaml`")
    );
    assert_eq!(
        said(InitStage::InstallBinary),
        text("Fail to install Mihomo binary")
    );
    assert_eq!(
        said(InitStage::InstallWebUi),
        text("Fail to install Mihomo Web UI")
    );
    assert_eq!(
        said(InitStage::InstallGeoipDb),
        text("Fail to install Mihomo GEOIP database")
    );
    assert_eq!(
        said(InitStage::WriteUnit),
        text("Fail to write systemd unit `/etc/systemd/system/mihomo.service`")
    );
    assert_eq!(
        said(InitStage::TestConfig),
        text("Fail to test Mihomo config")
    );
    assert_eq!(said(InitStage::ReloadUnits), None);
    assert_eq!(said(InitStage::EnableService), None);
    assert_eq!(said(InitStage::RestartService), None);
    assert_eq!(said(InitStage::Done), None);
}
