//! The steps of an installation, and the commands that they run.

use vstd::prelude::*;
use std::path::{Path, PathBuf};
use crate::download;
use crate::lines;
use crate::merge_laws;
use crate::paths;
use crate::paths::{InitPaths, PathError};
use crate::release;
use crate::release::PlatformError;
use crate::section_laws;

verus! {

/// The name of the service.
pub const MIHOMO_SERVICE_NAME: &'static str = "mihomo";

/// The systemd unit up to the command that it starts.
pub const UNIT_HEAD: &'static str =
    "[Unit]\nDescription=Mihomo daemon\nAfter=network-online.target\nWants=network-online.target\n\n[Service]\nType=simple\nExecStart=";

/// The systemd unit from the end of the command on.
pub const UNIT_TAIL: &'static str =
    "\nRestart=on-failure\nRestartSec=5\nLimitNOFILE=1048576\n\n[Install]\nWantedBy=multi-user.target\n";

/// The systemd unit for the given binary, configuration directory and configuration file.
pub open spec fn unit_text(binary: Seq<char>, dir: Seq<char>, config: Seq<char>) -> Seq<char> {
    UNIT_HEAD@ + binary + " -d "@ + dir + " -f "@ + config + UNIT_TAIL@
}

/// The systemd unit for the given binary, configuration directory and configuration file.
pub fn systemd_unit(binary: &str, dir: &str, config: &str) -> (r: String)
    ensures
        r@ == unit_text(binary@, dir@, config@),
{
    UNIT_HEAD.to_owned().concat(binary).concat(" -d ").concat(dir).concat(" -f ").concat(
        config,
    ).concat(UNIT_TAIL)
}

/// The systemd unit of an installation. Where the paths are text, it starts the binary on the
/// directory and the file on which [`test_mihomo_config`] has them tested.
pub fn build_systemd_unit(paths: &InitPaths) -> (r: String)
    ensures
        r@ == unit_text(
            paths::shown_path(paths::path_buf_bytes(paths.binary_path)),
            paths::shown_path(paths::path_buf_bytes(paths.config_dir)),
            paths::shown_path(paths::path_buf_bytes(paths.config_path)),
        ),
        match tested(*paths) {
            Ok(command) => vstd::utf8::valid_utf8(command.program) ==> r@ == unit_text(
                vstd::utf8::decode_utf8(command.program),
                command.args[2],
                command.args[4],
            ),
            Err(_) => true,
        },
{
    let binary = paths::show(paths::as_path(&paths.binary_path));
    let dir = paths::show(paths::as_path(&paths.config_dir));
    let config = paths::show(paths::as_path(&paths.config_path));
    systemd_unit(binary.as_str(), dir.as_str(), config.as_str())
}

/// A command to run.
pub struct CommandLine {
    /// The program.
    pub program: PathBuf,
    /// What the program is given.
    pub args: Vec<String>,
}

/// What a [`CommandLine`] holds.
pub struct Command {
    pub program: Seq<u8>,
    pub args: Seq<Seq<char>>,
}

impl View for CommandLine {
    type V = Command;

    open spec fn view(&self) -> Command {
        Command {
            program: paths::path_buf_bytes(self.program),
            args: download::texts(self.args@),
        }
    }
}

/// The command that has Mihomo test a configuration.
pub open spec fn test_command(binary: Seq<u8>, dir: Seq<u8>, config: Seq<u8>) -> Command {
    Command {
        program: binary,
        args: seq![
            "-t"@,
            "-d"@,
            vstd::utf8::decode_utf8(dir),
            "-f"@,
            vstd::utf8::decode_utf8(config),
        ],
    }
}

/// The command that has Mihomo test the configuration of an installation, or the first of the
/// two paths in it that is not text.
pub open spec fn tested(paths: InitPaths) -> Result<Command, Seq<u8>> {
    let dir = paths::path_buf_bytes(paths.config_dir);
    let config = paths::path_buf_bytes(paths.config_path);
    if !vstd::utf8::valid_utf8(dir) {
        Err(dir)
    } else if !vstd::utf8::valid_utf8(config) {
        Err(config)
    } else {
        Ok(test_command(paths::path_buf_bytes(paths.binary_path), dir, config))
    }
}

/// The command that has Mihomo test the configuration of an installation.
pub fn test_mihomo_config(paths: &InitPaths) -> (r: Result<CommandLine, PathError>)
    ensures
        match r {
            Ok(command) => tested(*paths) == Ok::<Command, Seq<u8>>(command@),
            Err(error) => tested(*paths) is Err && error is NotUtf8 && error->NotUtf8_0@
                == paths::shown_path(tested(*paths)->Err_0),
        },
{
    let dir = match paths::path_to_str(paths::as_path(&paths.config_dir)) {
        Ok(dir) => dir,
        Err(error) => {
            return Err(error);
        },
    };
    let config = match paths::path_to_str(paths::as_path(&paths.config_path)) {
        Ok(config) => config,
        Err(error) => {
            return Err(error);
        },
    };
    let mut args: Vec<String> = Vec::new();
    args.push("-t".to_owned());
    args.push("-d".to_owned());
    args.push(dir.to_owned());
    args.push("-f".to_owned());
    args.push(config.to_owned());
    let command = CommandLine {
        program: paths::to_path_buf(paths::as_path(&paths.binary_path)),
        args,
    };
    assert(command@.args =~= tested(*paths)->Ok_0.args);
    Ok(command)
}

/// The command that has systemd do what `args` says.
pub fn run_systemctl(paths: &InitPaths, args: &[&str]) -> (r: CommandLine)
    ensures
        r@.program == paths::path_buf_bytes(paths.systemctl_path),
        r@.args == Seq::new(args@.len(), |i: int| args@[i]@),
{
    let mut owned: Vec<String> = Vec::new();
    let mut i: usize = 0;
    while i < args.len()
        invariant
            i <= args@.len(),
            owned@.len() == i,
            forall|j: int| 0 <= j < i ==> #[trigger] owned@[j]@ == args@[j]@,
        decreases args@.len() - i,
    {
        owned.push(args[i].to_owned());
        i = i + 1;
    }
    let r = CommandLine {
        program: paths::to_path_buf(paths::as_path(&paths.systemctl_path)),
        args: owned,
    };
    assert(r@.args =~= Seq::new(args@.len(), |i: int| args@[i]@));
    r
}

/// A command that ran and failed.
#[derive(Debug)]
pub struct CommandError {
    /// The program, as it is shown.
    pub program: String,
    /// How it ended, as it is shown.
    pub status: String,
}

impl CommandError {
    /// The message for the user.
    pub fn message(&self) -> (r: String)
        ensures
            r@ == "Command `"@ + self.program@ + "` failed with status "@ + self.status@,
    {
        "Command `".to_owned().concat(self.program.as_str()).concat(
            "` failed with status ",
        ).concat(self.status.as_str())
    }
}

/// What to make of a command that ran: `success` tells whether it succeeded, and `status` shows
/// how it ended.
pub fn check_status(program: &Path, success: bool, status: &str) -> (r: Result<(), CommandError>)
    ensures
        match r {
            Ok(_) => success,
            Err(error) => !success && error.program@ == paths::shown_path(
                paths::path_bytes(program),
            ) && error.status@ == status@,
        },
{
    if success {
        Ok(())
    } else {
        Err(CommandError { program: paths::show(program), status: status.to_owned() })
    }
}

/// How to make a place free.
pub enum Removal {
    /// There is nothing in the way.
    Nothing,
    /// Remove the directory with all that is in it.
    Directory,
    /// Remove the file.
    File,
}

/// How to make a place free, by what is there.
pub fn removal(exists: bool, is_dir: bool) -> (r: Removal)
    ensures
        r is Nothing <==> !exists,
        r is Directory <==> exists && is_dir,
        r is File <==> exists && !is_dir,
{
    if !exists {
        Removal::Nothing
    } else if is_dir {
        Removal::Directory
    } else {
        Removal::File
    }
}

/// How the program calls itself when it asks for something.
pub fn user_agent(version: &str) -> (r: String)
    ensures
        r@ == "mihomosh/v"@ + version@ + " (clash-verge)"@,
{
    "mihomosh/v".to_owned().concat(version).concat(" (clash-verge)")
}

/// A stage of an installation.
#[derive(Clone, Copy, Debug, PartialEq, Eq, Structural)]
pub enum InitStage {
    /// Work out the configuration.
    PrepareConfig,
    /// Write the configuration.
    WriteConfig,
    /// Install the binary.
    InstallBinary,
    /// Install the web interface.
    InstallWebUi,
    /// Install the database of addresses by country.
    InstallGeoipDb,
    /// Write the systemd unit.
    WriteUnit,
    /// Have Mihomo test the configuration.
    TestConfig,
    /// Have systemd read its units again.
    ReloadUnits,
    /// Have the service started with the machine.
    EnableService,
    /// Start the service, or start it again.
    RestartService,
    /// Everything is done.
    Done,
}

/// What a stage consists in.
pub enum InitAction {
    /// Work out the configuration.
    PrepareConfig,
    /// Write the configuration.
    WriteConfig,
    /// Install the binary.
    InstallBinary,
    /// Install the web interface.
    InstallWebUi,
    /// Install the database of addresses by country.
    InstallGeoipDb,
    /// Write this systemd unit.
    WriteUnit(String),
    /// Run this command.
    Run(CommandLine),
    /// Tell the user that everything is done.
    Finish,
}

/// The stages in their order.
pub open spec fn init_order() -> Seq<InitStage> {
    seq![
        InitStage::PrepareConfig,
        InitStage::WriteConfig,
        InitStage::InstallBinary,
        InitStage::InstallWebUi,
        InitStage::InstallGeoipDb,
        InitStage::WriteUnit,
        InitStage::TestConfig,
        InitStage::ReloadUnits,
        InitStage::EnableService,
        InitStage::RestartService,
        InitStage::Done,
    ]
}

/// How many stages come before `stage`.
pub open spec fn stage_rank(stage: InitStage) -> int {
    init_order().index_of(stage)
}

/// What `stage` leads to, once it has succeeded or failed: the stage behind it, nothing after a
/// failure, and itself at the end.
pub open spec fn stage_after(stage: InitStage, succeeded: bool) -> Option<InitStage> {
    if stage is Done {
        Some(InitStage::Done)
    } else if succeeded {
        Some(init_order()[stage_rank(stage) + 1])
    } else {
        None
    }
}

/// The stage that is reached when the stages so far ended as `outcomes` says, if the
/// installation did not end with a failure.
pub open spec fn reached(outcomes: Seq<bool>) -> Option<InitStage>
    decreases outcomes.len(),
{
    if outcomes.len() == 0 {
        Some(InitStage::PrepareConfig)
    } else {
        match reached(outcomes.drop_last()) {
            Some(stage) => stage_after(stage, outcomes.last()),
            None => None,
        }
    }
}

/// Each stage stands once in the order.
proof fn lemma_order(stage: InitStage)
    ensures
        0 <= stage_rank(stage) < init_order().len(),
        init_order()[stage_rank(stage)] == stage,
        forall|i: int|
            0 <= i < init_order().len() && #[trigger] init_order()[i] == stage ==> i == stage_rank(
                stage,
            ),
        init_order().len() == 11,
        init_order()[10] is Done,
{
    let order = init_order();
    let i: int = match stage {
        InitStage::PrepareConfig => 0,
        InitStage::WriteConfig => 1,
        InitStage::InstallBinary => 2,
        InitStage::InstallWebUi => 3,
        InitStage::InstallGeoipDb => 4,
        InitStage::WriteUnit => 5,
        InitStage::TestConfig => 6,
        InitStage::ReloadUnits => 7,
        InitStage::EnableService => 8,
        InitStage::RestartService => 9,
        InitStage::Done => 10,
    };
    assert(order[i] == stage);
    assert(order.contains(stage));
}

/// A stage is reached only when each stage before it has succeeded.
pub proof fn every_stage_before_succeeded(outcomes: Seq<bool>, earlier: InitStage)
    requires
        reached(outcomes) matches Some(stage) && stage_rank(earlier) < stage_rank(stage),
    ensures
        stage_rank(earlier) < outcomes.len(),
        outcomes[stage_rank(earlier)],
{
    lemma_order(earlier);
    lemma_reached(outcomes);
}

/// Where the outcomes so far lead.
proof fn lemma_reached(outcomes: Seq<bool>)
    requires
        reached(outcomes) is Some,
    ensures
        ({
            let rank = stage_rank(reached(outcomes)->0);
            &&& rank <= outcomes.len()
            &&& rank < 10 ==> rank == outcomes.len()
            &&& forall|i: int| 0 <= i < rank ==> #[trigger] outcomes[i]
        }),
    decreases outcomes.len(),
{
    lemma_order(InitStage::PrepareConfig);
    lemma_order(InitStage::Done);
    if outcomes.len() > 0 {
        let before = outcomes.drop_last();
        let stage = reached(before)->0;
        lemma_reached(before);
        lemma_order(stage);
        lemma_order(reached(outcomes)->0);
        assert forall|i: int|
            0 <= i < stage_rank(reached(outcomes)->0) implies #[trigger] outcomes[i] by {
            if i < stage_rank(stage) {
                assert(before[i]);
            }
        }
    } else {
        assert(init_order()[0] is PrepareConfig);
    }
}

/// The service is started only once the configuration has been written and tested with the
/// binary that was installed, and systemd has read the unit that was written.
pub proof fn service_starts_from_what_was_tested(outcomes: Seq<bool>)
    requires
        reached(outcomes) == Some(InitStage::RestartService),
    ensures
        stage_rank(InitStage::WriteConfig) < stage_rank(InitStage::TestConfig),
        stage_rank(InitStage::InstallBinary) < stage_rank(InitStage::TestConfig),
        stage_rank(InitStage::WriteUnit) < stage_rank(InitStage::ReloadUnits),
        outcomes[stage_rank(InitStage::WriteConfig)],
        outcomes[stage_rank(InitStage::InstallBinary)],
        outcomes[stage_rank(InitStage::WriteUnit)],
        outcomes[stage_rank(InitStage::TestConfig)],
        outcomes[stage_rank(InitStage::ReloadUnits)],
{
    let order = init_order();
    lemma_order(InitStage::WriteConfig);
    lemma_order(InitStage::InstallBinary);
    lemma_order(InitStage::WriteUnit);
    lemma_order(InitStage::TestConfig);
    lemma_order(InitStage::ReloadUnits);
    lemma_order(InitStage::RestartService);
    assert(order[1] is WriteConfig && order[2] is InstallBinary && order[5] is WriteUnit);
    assert(order[6] is TestConfig && order[7] is ReloadUnits && order[9] is RestartService);
    lemma_reached(outcomes);
}

/// An installation of which every stage succeeds gets to its end.
pub proof fn success_reaches_the_end(outcomes: Seq<bool>)
    requires
        outcomes.len() == 10,
        forall|i: int| 0 <= i < outcomes.len() ==> #[trigger] outcomes[i],
    ensures
        reached(outcomes) == Some(InitStage::Done),
{
    lemma_success(outcomes);
    lemma_order(InitStage::Done);
}

/// Stages that succeed lead on one by one.
proof fn lemma_success(outcomes: Seq<bool>)
    requires
        outcomes.len() <= 10,
        forall|i: int| 0 <= i < outcomes.len() ==> #[trigger] outcomes[i],
    ensures
        reached(outcomes) == Some(init_order()[outcomes.len() as int]),
    decreases outcomes.len(),
{
    if outcomes.len() > 0 {
        let before = outcomes.drop_last();
        assert forall|i: int| 0 <= i < before.len() implies #[trigger] before[i] by {
            assert(outcomes[i]);
        }
        lemma_success(before);
        let stage = init_order()[before.len() as int];
        lemma_order(stage);
        lemma_order(InitStage::Done);
        assert(outcomes[outcomes.len() - 1]);
    }
}

/// What is said of a failure of `stage`, if anything is said besides the failure itself.
pub open spec fn stage_context(stage: InitStage, paths: InitPaths) -> Option<Seq<char>> {
    match stage {
        InitStage::PrepareConfig => Some("Fail to prepare Mihomo config"@),
        InitStage::WriteConfig => Some(
            "Fail to write Mihomo config `"@ + paths::shown_path(
                paths::path_buf_bytes(paths.config_path),
            ) + "`"@,
        ),
        InitStage::InstallBinary => Some("Fail to install Mihomo binary"@),
        InitStage::InstallWebUi => Some("Fail to install Mihomo Web UI"@),
        InitStage::InstallGeoipDb => Some("Fail to install Mihomo GEOIP database"@),
        InitStage::WriteUnit => Some(
            "Fail to write systemd unit `"@ + paths::shown_path(
                paths::path_buf_bytes(paths.systemd_unit_path),
            ) + "`"@,
        ),
        InitStage::TestConfig => Some("Fail to test Mihomo config"@),
        _ => None,
    }
}

/// What systemd is told at `stage`, if it is told anything.
pub open spec fn systemctl_args(stage: InitStage) -> Option<Seq<Seq<char>>> {
    match stage {
        InitStage::ReloadUnits => Some(seq!["daemon-reload"@]),
        InitStage::EnableService => Some(seq!["enable"@, MIHOMO_SERVICE_NAME@]),
        InitStage::RestartService => Some(seq!["restart"@, MIHOMO_SERVICE_NAME@]),
        _ => None,
    }
}

impl InitStage {
    /// Where an installation on the operating system `os` begins.
    pub fn first(os: &str) -> (r: Result<InitStage, PlatformError>)
        ensures
            match r {
                Ok(stage) => os@ == "linux"@ && stage is PrepareConfig,
                Err(error) => os@ != "linux"@ && error is NotLinux,
            },
    {
        match release::ensure_linux(os) {
            Ok(_) => Ok(InitStage::PrepareConfig),
            Err(error) => Err(error),
        }
    }

    /// The stage to go on with.
    pub fn after(self, succeeded: bool) -> (r: Option<InitStage>)
        ensures
            r == stage_after(self, succeeded),
    {
        proof {
            lemma_order(self);
        }
        if !succeeded {
            return match self {
                InitStage::Done => Some(InitStage::Done),
                _ => None,
            };
        }
        Some(
            match self {
                InitStage::PrepareConfig => InitStage::WriteConfig,
                InitStage::WriteConfig => InitStage::InstallBinary,
                InitStage::InstallBinary => InitStage::InstallWebUi,
                InitStage::InstallWebUi => InitStage::InstallGeoipDb,
                InitStage::InstallGeoipDb => InitStage::WriteUnit,
                InitStage::WriteUnit => InitStage::TestConfig,
                InitStage::TestConfig => InitStage::ReloadUnits,
                InitStage::ReloadUnits => InitStage::EnableService,
                InitStage::EnableService => InitStage::RestartService,
                InitStage::RestartService => InitStage::Done,
                InitStage::Done => InitStage::Done,
            },
        )
    }

    /// What the stage consists in.
    pub fn action(self, paths: &InitPaths) -> (r: Result<InitAction, PathError>)
        ensures
            match self {
                InitStage::PrepareConfig => r matches Ok(action) && action is PrepareConfig,
                InitStage::WriteConfig => r matches Ok(action) && action is WriteConfig,
                InitStage::InstallBinary => r matches Ok(action) && action is InstallBinary,
                InitStage::InstallWebUi => r matches Ok(action) && action is InstallWebUi,
                InitStage::InstallGeoipDb => r matches Ok(action) && action is InstallGeoipDb,
                InitStage::WriteUnit => r matches Ok(InitAction::WriteUnit(unit)) && unit@
                    == unit_text(
                    paths::shown_path(paths::path_buf_bytes(paths.binary_path)),
                    paths::shown_path(paths::path_buf_bytes(paths.config_dir)),
                    paths::shown_path(paths::path_buf_bytes(paths.config_path)),
                ),
                InitStage::TestConfig => match tested(*paths) {
                    Ok(command) => r matches Ok(InitAction::Run(run)) && run@ == command,
                    Err(path) => r matches Err(PathError::NotUtf8(shown)) && shown@
                        == paths::shown_path(path),
                },
                InitStage::Done => r matches Ok(action) && action is Finish,
                _ => r matches Ok(InitAction::Run(run)) && run@.program == paths::path_buf_bytes(
                    paths.systemctl_path,
                ) && systemctl_args(self) == Some(run@.args),
            },
    {
        match self {
            InitStage::PrepareConfig => Ok(InitAction::PrepareConfig),
            InitStage::WriteConfig => Ok(InitAction::WriteConfig),
            InitStage::InstallBinary => Ok(InitAction::InstallBinary),
            InitStage::InstallWebUi => Ok(InitAction::InstallWebUi),
            InitStage::InstallGeoipDb => Ok(InitAction::InstallGeoipDb),
            InitStage::WriteUnit => Ok(InitAction::WriteUnit(build_systemd_unit(paths))),
            InitStage::TestConfig => match test_mihomo_config(paths) {
                Ok(command) => Ok(InitAction::Run(command)),
                Err(error) => Err(error),
            },
            InitStage::ReloadUnits => {
                let command = run_systemctl(paths, &["daemon-reload"]);
                assert(command@.args =~= seq!["daemon-reload"@]);
                Ok(InitAction::Run(command))
            },
            InitStage::EnableService => {
                let command = run_systemctl(paths, &["enable", MIHOMO_SERVICE_NAME]);
                assert(command@.args =~= seq!["enable"@, MIHOMO_SERVICE_NAME@]);
                Ok(InitAction::Run(command))
            },
            InitStage::RestartService => {
                let command = run_systemctl(paths, &["restart", MIHOMO_SERVICE_NAME]);
                assert(command@.args =~= seq!["restart"@, MIHOMO_SERVICE_NAME@]);
                Ok(InitAction::Run(command))
            },
            InitStage::Done => Ok(InitAction::Finish),
        }
    }

    /// What to say of a failure of the stage, if anything is said besides the failure itself.
    pub fn context(self, paths: &InitPaths) -> (r: Option<String>)
        ensures
            match r {
                Some(text) => stage_context(self, *paths) == Some(text@),
                None => stage_context(self, *paths) is None,
            },
    {
        match self {
            InitStage::PrepareConfig => Some("Fail to prepare Mihomo config".to_owned()),
            InitStage::WriteConfig => {
                let path = paths::show(paths::as_path(&paths.config_path));
                Some(
                    "Fail to write Mihomo config `".to_owned().concat(path.as_str()).concat("`"),
                )
            },
            InitStage::InstallBinary => Some("Fail to install Mihomo binary".to_owned()),
            InitStage::InstallWebUi => Some("Fail to install Mihomo Web UI".to_owned()),
            InitStage::InstallGeoipDb => Some("Fail to install Mihomo GEOIP database".to_owned()),
            InitStage::WriteUnit => {
                let path = paths::show(paths::as_path(&paths.systemd_unit_path));
                Some("Fail to write systemd unit `".to_owned().concat(path.as_str()).concat("`"))
            },
            InitStage::TestConfig => Some("Fail to test Mihomo config".to_owned()),
            _ => None,
        }
    }
}

/// The lines of a systemd unit: one starts the binary on the directory and the file, and the
/// others are the same for every installation.
pub proof fn unit_starts_the_binary(binary: Seq<char>, dir: Seq<char>, config: Seq<char>)
    requires
        !binary.contains('\n'),
        !dir.contains('\n'),
        !config.contains('\n'),
    ensures
        lines::lines(unit_text(binary, dir, config)) == lines::lines(
            "[Unit]\nDescription=Mihomo daemon\nAfter=network-online.target\nWants=network-online.target\n\n[Service]\nType=simple\n"@,
        ) + seq!["ExecStart="@ + binary + " -d "@ + dir + " -f "@ + config + "\n"@]
            + lines::lines(
            "Restart=on-failure\nRestartSec=5\nLimitNOFILE=1048576\n\n[Install]\nWantedBy=multi-user.target\n"@,
        ),
{
    reveal_strlit(
        "[Unit]\nDescription=Mihomo daemon\nAfter=network-online.target\nWants=network-online.target\n\n[Service]\nType=simple\nExecStart=",
    );
    reveal_strlit(
        "\nRestart=on-failure\nRestartSec=5\nLimitNOFILE=1048576\n\n[Install]\nWantedBy=multi-user.target\n",
    );
    reveal_strlit(
        "[Unit]\nDescription=Mihomo daemon\nAfter=network-online.target\nWants=network-online.target\n\n[Service]\nType=simple\n",
    );
    reveal_strlit(
        "Restart=on-failure\nRestartSec=5\nLimitNOFILE=1048576\n\n[Install]\nWantedBy=multi-user.target\n",
    );
    reveal_strlit("ExecStart=");
    reveal_strlit(" -d ");
    reveal_strlit(" -f ");
    reveal_strlit("\n");
    let head =
        "[Unit]\nDescription=Mihomo daemon\nAfter=network-online.target\nWants=network-online.target\n\n[Service]\nType=simple\n"@;
    let tail =
        "Restart=on-failure\nRestartSec=5\nLimitNOFILE=1048576\n\n[Install]\nWantedBy=multi-user.target\n"@;
    assert(UNIT_HEAD@ =~= head + "ExecStart="@);
    assert(UNIT_TAIL@ =~= "\n"@ + tail);
    let line = "ExecStart="@ + binary + " -d "@ + dir + " -f "@ + config + "\n"@;
    assert(unit_text(binary, dir, config) =~= head + line + tail);
    let b = 10 + binary.len() as int;
    let d = b + 4 + dir.len();
    assert forall|j: int| 0 <= j < line.len() - 1 implies #[trigger] line[j] != '\n' by {
        if 10 <= j < b {
            assert(line[j] == binary[j - 10]);
            assert(binary.contains(binary[j - 10]));
        } else if b + 4 <= j < d {
            assert(line[j] == dir[j - b - 4]);
            assert(dir.contains(dir[j - b - 4]));
        } else if d + 4 <= j {
            assert(line[j] == config[j - d - 4]);
            assert(config.contains(config[j - d - 4]));
        }
    }
    assert(line.last() == '\n');
    section_laws::lemma_one_line(line);
    assert((head + line).last() == line.last());
    merge_laws::lines_of_concatenation(head, line);
    merge_laws::lines_of_concatenation(head + line, tail);
}

/// The configuration is tested with the binary, the directory and the file of the installation,
/// wherever the two paths are text.
pub proof fn test_is_about_the_installation(paths: InitPaths)
    ensures
        ({
            let dir = paths::path_buf_bytes(paths.config_dir);
            let config = paths::path_buf_bytes(paths.config_path);
            &&& tested(paths) is Ok <==> vstd::utf8::valid_utf8(dir) && vstd::utf8::valid_utf8(
                config,
            )
            &&& match tested(paths) {
                Ok(command) => {
                    &&& command.program == paths::path_buf_bytes(paths.binary_path)
                    &&& command.args.len() == 5
                    &&& command.args[0] == "-t"@
                    &&& command.args[1] == "-d"@
                    &&& vstd::utf8::encode_utf8(command.args[2]) == dir
                    &&& command.args[3] == "-f"@
                    &&& vstd::utf8::encode_utf8(command.args[4]) == config
                },
                Err(path) => !vstd::utf8::valid_utf8(path) && (path == dir || path == config),
            }
        }),
{
    let dir = paths::path_buf_bytes(paths.config_dir);
    let config = paths::path_buf_bytes(paths.config_path);
    if vstd::utf8::valid_utf8(dir) && vstd::utf8::valid_utf8(config) {
        vstd::utf8::decode_utf8_encode_utf8(dir);
        vstd::utf8::decode_utf8_encode_utf8(config);
    }
}

/// Stages that succeed come one by one: the configuration is prepared and written, what belongs
/// to it is installed, the unit is written, the whole is tested, and only then systemd is told.
pub proof fn stages_come_one_by_one(outcomes: Seq<bool>)
    requires
        outcomes.len() <= 10,
        forall|i: int| 0 <= i < outcomes.len() ==> #[trigger] outcomes[i],
    ensures
        outcomes.len() == 0 ==> reached(outcomes) == Some(InitStage::PrepareConfig),
        outcomes.len() == 1 ==> reached(outcomes) == Some(InitStage::WriteConfig),
        outcomes.len() == 2 ==> reached(outcomes) == Some(InitStage::InstallBinary),
        outcomes.len() == 3 ==> reached(outcomes) == Some(InitStage::InstallWebUi),
        outcomes.len() == 4 ==> reached(outcomes) == Some(InitStage::InstallGeoipDb),
        outcomes.len() == 5 ==> reached(outcomes) == Some(InitStage::WriteUnit),
        outcomes.len() == 6 ==> reached(outcomes) == Some(InitStage::TestConfig),
        outcomes.len() == 7 ==> reached(outcomes) == Some(InitStage::ReloadUnits),
        outcomes.len() == 8 ==> reached(outcomes) == Some(InitStage::EnableService),
        outcomes.len() == 9 ==> reached(outcomes) == Some(InitStage::RestartService),
        outcomes.len() == 10 ==> reached(outcomes) == Some(InitStage::Done),
{
    lemma_success(outcomes);
}

/// The first stage that fails ends the installation: nothing comes after it.
pub proof fn failure_ends_the_installation(outcomes: Seq<bool>, i: int)
    requires
        0 <= i < outcomes.len(),
        i < 10,
        !outcomes[i],
        forall|j: int| 0 <= j < i ==> #[trigger] outcomes[j],
    ensures
        reached(outcomes) is None,
    decreases outcomes.len(),
{
    let before = outcomes.drop_last();
    if i == before.len() {
        assert forall|j: int| 0 <= j < before.len() implies #[trigger] before[j] by {
            assert(outcomes[j]);
        }
        lemma_success(before);
        let stage = init_order()[before.len() as int];
        lemma_order(stage);
        lemma_order(InitStage::Done);
    } else {
        assert forall|j: int| 0 <= j < i implies #[trigger] before[j] by {
            assert(outcomes[j]);
        }
        failure_ends_the_installation(before, i);
    }
}

/// systemd is told to read its units, and then twice something about the one service.
pub proof fn systemd_is_told_about_the_service(stage: InitStage)
    ensures
        systemctl_args(stage) is Some <==> stage is ReloadUnits || stage is EnableService
            || stage is RestartService,
        systemctl_args(InitStage::ReloadUnits) == Some(seq!["daemon-reload"@]),
        systemctl_args(InitStage::EnableService) == Some(seq!["enable"@, "mihomo"@]),
        systemctl_args(InitStage::RestartService) == Some(seq!["restart"@, "mihomo"@]),
{
}

/// A file that cannot be written is told by its path, and every stage but those of systemd and
/// the last says what failed.
pub proof fn failure_is_told(stage: InitStage, paths: InitPaths)
    ensures
        stage_context(stage, paths) is None <==> systemctl_args(stage) is Some || stage is Done,
        stage is PrepareConfig ==> stage_context(stage, paths) == Some(
            "Fail to prepare Mihomo config"@,
        ),
        stage is InstallBinary ==> stage_context(stage, paths) == Some(
            "Fail to install Mihomo binary"@,
        ),
        stage is InstallWebUi ==> stage_context(stage, paths) == Some(
            "Fail to install Mihomo Web UI"@,
        ),
        stage is InstallGeoipDb ==> stage_context(stage, paths) == Some(
            "Fail to install Mihomo GEOIP database"@,
        ),
        stage is TestConfig ==> stage_context(stage, paths) == Some("Fail to test Mihomo config"@),
        stage is WriteConfig ==> stage_context(stage, paths) == Some(
            "Fail to write Mihomo config `"@ + paths::shown_path(
                paths::path_buf_bytes(paths.config_path),
            ) + "`"@,
        ),
        stage is WriteUnit ==> stage_context(stage, paths) == Some(
            "Fail to write systemd unit `"@ + paths::shown_path(
                paths::path_buf_bytes(paths.systemd_unit_path),
            ) + "`"@,
        ),
{
}

/// An installation that is done stays done.
pub proof fn done_is_done(outcomes: Seq<bool>, outcome: bool)
    requires
        reached(outcomes) == Some(InitStage::Done),
    ensures
        reached(outcomes.push(outcome)) == Some(InitStage::Done),
{
    assert(outcomes.push(outcome).drop_last() =~= outcomes);
}

} // verus!
