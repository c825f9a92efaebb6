//! The command line: what to open, or which project to configure.
use vstd::prelude::*;

use crate::json::option_view;
use crate::text::{owned, same, views};

verus! {

/// What the viewer opens: a project, a workspace, and log files beside the
/// project's own. Paths are texts.
#[derive(Debug, Clone, Default)]
pub struct LaunchRequest {
    pub workspace_path: Option<String>,
    pub project_root: Option<String>,
    pub log_paths: Vec<String>,
}

/// What the viewer opens.
#[verifier::ext_equal]
pub struct LaunchModel {
    pub workspace_path: Option<Seq<char>>,
    pub project_root: Option<Seq<char>>,
    pub log_paths: Seq<Seq<char>>,
}

impl View for LaunchRequest {
    type V = LaunchModel;

    open spec fn view(&self) -> LaunchModel {
        LaunchModel {
            workspace_path: option_view(self.workspace_path),
            project_root: option_view(self.project_root),
            log_paths: views(self.log_paths@),
        }
    }
}

/// The title of the window: the program's name, followed by the name of what it
/// shows.
pub open spec fn title_of(name: Option<Seq<char>>) -> Seq<char> {
    match name {
        Some(name) => "DeeBugee — "@ + name,
        None => "DeeBugee"@,
    }
}

impl LaunchRequest {
    /// What the viewer opens.
    pub fn new(
        workspace_path: Option<String>,
        project_root: Option<String>,
        log_paths: Vec<String>,
    ) -> (request: Self)
        ensures
            request@ == (LaunchModel {
                workspace_path: option_view(workspace_path),
                project_root: option_view(project_root),
                log_paths: views(log_paths@),
            }),
    {
        LaunchRequest { workspace_path, project_root, log_paths }
    }

    /// The title of the window, given the names that the project and the
    /// workspace have, where they have one: the project's goes first.
    pub fn window_title(&self, project_name: Option<String>, workspace_name: Option<String>) -> (
    title: String)
        ensures
            title@ == title_of(
                if self.project_root is Some && project_name is Some {
                    option_view(project_name)
                } else if self.workspace_path is Some {
                    option_view(workspace_name)
                } else {
                    None
                },
            ),
    {
        let mut name: Option<String> = None;
        if self.project_root.is_some() {
            name = project_name;
        }
        if name.is_none() && self.workspace_path.is_some() {
            name = workspace_name;
        }
        match name {
            Some(name) => {
                let mut title = owned("DeeBugee — ");
                title.append(name.as_str());
                title
            },
            None => owned("DeeBugee"),
        }
    }
}

/// What the viewer opens, once the arguments from a place on are taken into
/// account. The flags say which arguments are the paths of projects.
pub open spec fn launch_from(
    arguments: Seq<Seq<char>>,
    projects: Seq<bool>,
    index: int,
    request: LaunchModel,
) -> LaunchModel
    decreases arguments.len() - index,
{
    if index < 0 || index >= arguments.len() {
        request
    } else if arguments[index] == "--workspace"@ {
        if index + 1 < arguments.len() {
            launch_from(
                arguments,
                projects,
                index + 2,
                LaunchModel { workspace_path: Some(arguments[index + 1]), ..request },
            )
        } else {
            request
        }
    } else if arguments[index] == "--project"@ {
        if index + 1 < arguments.len() {
            launch_from(
                arguments,
                projects,
                index + 2,
                LaunchModel { project_root: Some(arguments[index + 1]), ..request },
            )
        } else {
            request
        }
    } else if arguments[index] == "--logs"@ {
        if index + 1 < arguments.len() {
            launch_from(
                arguments,
                projects,
                index + 2,
                LaunchModel {
                    log_paths: request.log_paths.push(arguments[index + 1]),
                    ..request
                },
            )
        } else {
            request
        }
    } else if request.project_root is None && projects[index] {
        launch_from(
            arguments,
            projects,
            index + 1,
            LaunchModel { project_root: Some(arguments[index]), ..request },
        )
    } else {
        launch_from(
            arguments,
            projects,
            index + 1,
            LaunchModel { log_paths: request.log_paths.push(arguments[index]), ..request },
        )
    }
}

/// A request to open nothing.
pub open spec fn empty_launch() -> LaunchModel {
    LaunchModel { workspace_path: None, project_root: None, log_paths: Seq::empty() }
}

/// What the arguments ask the viewer to open. The flags say which arguments are
/// the paths of projects.
pub fn parse_launch_request(arguments: &Vec<String>, projects: &Vec<bool>) -> (request:
    LaunchRequest)
    requires
        projects@.len() == arguments@.len(),
    ensures
        request@ == launch_from(views(arguments@), projects@, 0, empty_launch()),
{
    let ghost texts = views(arguments@);
    let mut request = LaunchRequest {
        workspace_path: None,
        project_root: None,
        log_paths: Vec::new(),
    };
    let mut index: usize = 0;
    assert(request@ == empty_launch());
    while index < arguments.len()
        invariant
            index <= arguments.len(),
            projects@.len() == arguments@.len(),
            texts == views(arguments@),
            launch_from(texts, projects@, index as int, request@) == launch_from(
                texts,
                projects@,
                0,
                empty_launch(),
            ),
        decreases arguments.len() - index,
    {
        let argument = arguments[index].as_str();
        assert(texts[index as int] == argument@);
        let ghost before = request@;
        let has_value = index + 1 < arguments.len();
        let workspace = same(argument, "--workspace");
        let project = same(argument, "--project");
        let logs = same(argument, "--logs");
        if workspace || project || logs {
            if !has_value {
                return request;
            }
            let value = arguments[index + 1].clone();
            assert(texts[index + 1] == value@);
            if workspace {
                request.workspace_path = Some(value);
            } else if project {
                request.project_root = Some(value);
            } else {
                request.log_paths.push(value);
                assert(request@.log_paths == before.log_paths.push(value@));
            }
            index += 2;
        } else {
            let value = arguments[index].clone();
            if request.project_root.is_none() && projects[index] {
                request.project_root = Some(value);
            } else {
                request.log_paths.push(value);
                assert(request@.log_paths == before.log_paths.push(value@));
            }
            index += 1;
        }
    }
    request
}

/// A project to be configured: where it is, its identifier, its name and its
/// log sources, and whether an existing configuration is replaced.
pub struct ProjectConfiguration {
    pub root: String,
    pub id: String,
    pub name: String,
    pub sources: Vec<String>,
    pub overwrite: bool,
}

/// What is known of a project to be configured.
#[verifier::ext_equal]
pub struct ConfigurationModel {
    pub id: Option<Seq<char>>,
    pub name: Option<Seq<char>>,
    pub sources: Seq<Seq<char>>,
    pub overwrite: bool,
}

/// What the options from a place on say of a project, or what is wrong with
/// them.
pub open spec fn configuration_from(
    arguments: Seq<Seq<char>>,
    index: int,
    known: ConfigurationModel,
) -> Result<ConfigurationModel, Seq<char>>
    decreases arguments.len() - index,
{
    if index < 0 || index >= arguments.len() {
        Ok(known)
    } else if arguments[index] == "--force"@ {
        configuration_from(arguments, index + 1, ConfigurationModel { overwrite: true, ..known })
    } else if arguments[index] == "--project-id"@ || arguments[index] == "--project-name"@
        || arguments[index] == "--source"@ {
        if index + 1 >= arguments.len() {
            Err("--configure-project requires a value after "@ + arguments[index])
        } else if arguments[index] == "--project-id"@ {
            configuration_from(
                arguments,
                index + 2,
                ConfigurationModel { id: Some(arguments[index + 1]), ..known },
            )
        } else if arguments[index] == "--project-name"@ {
            configuration_from(
                arguments,
                index + 2,
                ConfigurationModel { name: Some(arguments[index + 1]), ..known },
            )
        } else {
            configuration_from(
                arguments,
                index + 2,
                ConfigurationModel { sources: known.sources.push(arguments[index + 1]), ..known },
            )
        }
    } else {
        Err("Unknown --configure-project option: "@ + arguments[index])
    }
}

/// A configuration of which nothing is known.
pub open spec fn unknown_configuration() -> ConfigurationModel {
    ConfigurationModel { id: None, name: None, sources: Seq::empty(), overwrite: false }
}

/// The project that arguments ask to configure, as its root and what is known of
/// it, or what is wrong with them. The first argument is the command itself.
pub open spec fn configuration_request(arguments: Seq<Seq<char>>) -> Result<
    (Seq<char>, ConfigurationModel),
    Seq<char>,
> {
    if arguments.len() < 2 {
        Err(
            "Usage: dee-bugee.exe --configure-project <root> --project-id <id> --project-name <name> --source <path> [--source <path> ...] [--force]"@,
        )
    } else {
        match configuration_from(arguments, 2, unknown_configuration()) {
            Err(message) => Err(message),
            Ok(known) => if known.id is None {
                Err("--configure-project requires --project-id <id>"@)
            } else if known.name is None {
                Err("--configure-project requires --project-name <name>"@)
            } else {
                Ok((arguments[1], known))
            },
        }
    }
}

/// Whether a configuration is the one that was asked for.
pub open spec fn configures(
    configuration: ProjectConfiguration,
    root: Seq<char>,
    known: ConfigurationModel,
) -> bool {
    &&& configuration.root@ == root
    &&& known.id == Some(configuration.id@)
    &&& known.name == Some(configuration.name@)
    &&& views(configuration.sources@) == known.sources
    &&& configuration.overwrite == known.overwrite
}

/// The project that arguments ask to configure.
pub fn parse_project_configuration(arguments: &Vec<String>) -> (result: Result<
    ProjectConfiguration,
    String,
>)
    ensures
        match result {
            Ok(configuration) => match configuration_request(views(arguments@)) {
                Ok((root, known)) => configures(configuration, root, known),
                Err(_) => false,
            },
            Err(message) => configuration_request(views(arguments@)) == Err::<
                (Seq<char>, ConfigurationModel),
                Seq<char>,
            >(message@),
        },
{
    let ghost texts = views(arguments@);
    if arguments.len() < 2 {
        return Err(
            owned(
                "Usage: dee-bugee.exe --configure-project <root> --project-id <id> --project-name <name> --source <path> [--source <path> ...] [--force]",
            ),
        );
    }
    let mut id: Option<String> = None;
    let mut name: Option<String> = None;
    let mut sources: Vec<String> = Vec::new();
    let mut overwrite = false;
    let mut index: usize = 2;
    let ghost mut known = unknown_configuration();
    assert(views(sources@) == known.sources);
    while index < arguments.len()
        invariant
            2 <= index <= arguments.len(),
            texts == views(arguments@),
            known == (ConfigurationModel {
                id: option_view(id),
                name: option_view(name),
                sources: views(sources@),
                overwrite,
            }),
            configuration_from(texts, index as int, known) == configuration_from(
                texts,
                2,
                unknown_configuration(),
            ),
        decreases arguments.len() - index,
    {
        let argument = arguments[index].as_str();
        assert(texts[index as int] == argument@);
        if same(argument, "--force") {
            overwrite = true;
            proof {
                known = ConfigurationModel { overwrite: true, ..known };
            }
            index += 1;
        } else if same(argument, "--project-id") || same(argument, "--project-name") || same(
            argument,
            "--source",
        ) {
            if index + 1 >= arguments.len() {
                let mut message = owned("--configure-project requires a value after ");
                message.append(argument);
                return Err(message);
            }
            let value = arguments[index + 1].clone();
            assert(texts[index + 1] == value@);
            if same(argument, "--project-id") {
                proof {
                    known = ConfigurationModel { id: Some(value@), ..known };
                }
                id = Some(value);
            } else if same(argument, "--project-name") {
                proof {
                    known = ConfigurationModel { name: Some(value@), ..known };
                }
                name = Some(value);
            } else {
                let ghost before = views(sources@);
                proof {
                    known = ConfigurationModel { sources: before.push(value@), ..known };
                }
                sources.push(value);
                assert(views(sources@) == before.push(value@));
            }
            index += 2;
        } else {
            let mut message = owned("Unknown --configure-project option: ");
            message.append(argument);
            return Err(message);
        }
    }
    let id = match id {
        Some(id) => id,
        None => return Err(owned("--configure-project requires --project-id <id>")),
    };
    let name = match name {
        Some(name) => name,
        None => return Err(owned("--configure-project requires --project-name <name>")),
    };
    assert(texts[1] == arguments@[1]@);
    Ok(ProjectConfiguration { root: arguments[1].clone(), id, name, sources, overwrite })
}

/// What the command line asks for.
pub enum StartupRequest {
    Launch(LaunchRequest),
    Configure(ProjectConfiguration),
}

/// Whether the command line asks to configure a project.
pub open spec fn asks_to_configure(arguments: Seq<Seq<char>>) -> bool {
    arguments.len() > 0 && arguments[0] == "--configure-project"@
}

/// What the command line asks for. The flags say which arguments are the paths
/// of projects.
pub fn parse_startup_request(arguments: &Vec<String>, projects: &Vec<bool>) -> (result: Result<
    StartupRequest,
    String,
>)
    requires
        projects@.len() == arguments@.len(),
    ensures
        match result {
            Ok(StartupRequest::Launch(request)) => !asks_to_configure(views(arguments@))
                && request@ == launch_from(views(arguments@), projects@, 0, empty_launch()),
            Ok(StartupRequest::Configure(configuration)) => asks_to_configure(views(arguments@))
                && match configuration_request(views(arguments@)) {
                Ok((root, known)) => configures(configuration, root, known),
                Err(_) => false,
            },
            Err(message) => asks_to_configure(views(arguments@)) && configuration_request(
                views(arguments@),
            ) == Err::<(Seq<char>, ConfigurationModel), Seq<char>>(message@),
        },
{
    if arguments.len() > 0 {
        assert(views(arguments@)[0] == arguments@[0]@);
    }
    if arguments.len() > 0 && same(arguments[0].as_str(), "--configure-project") {
        match parse_project_configuration(arguments) {
            Ok(configuration) => Ok(StartupRequest::Configure(configuration)),
            Err(message) => Err(message),
        }
    } else {
        Ok(StartupRequest::Launch(parse_launch_request(arguments, projects)))
    }
}

/// What arguments ask for does not depend on those before them that are taken into account.
proof fn lemma_launch_shifts(
    front: Seq<Seq<char>>,
    arguments: Seq<Seq<char>>,
    flags: Seq<bool>,
    projects: Seq<bool>,
    index: int,
    request: LaunchModel,
)
    requires
        front.len() == flags.len(),
        arguments.len() == projects.len(),
        0 <= index,
    ensures
        launch_from(front + arguments, flags + projects, front.len() + index, request)
            == launch_from(arguments, projects, index, request),
    decreases arguments.len() - index,
{
    let all = front + arguments;
    let place = front.len() + index;
    if index < arguments.len() {
        assert(all[place] == arguments[index]);
        assert((flags + projects)[place] == projects[index]);
        if index + 1 < arguments.len() {
            let next = arguments[index + 1];
            assert(all[place + 1] == next);
            let workspace = LaunchModel { workspace_path: Some(next), ..request };
            let project = LaunchModel { project_root: Some(next), ..request };
            let logs = LaunchModel { log_paths: request.log_paths.push(next), ..request };
            lemma_launch_shifts(front, arguments, flags, projects, index + 2, workspace);
            lemma_launch_shifts(front, arguments, flags, projects, index + 2, project);
            lemma_launch_shifts(front, arguments, flags, projects, index + 2, logs);
        }
        lemma_launch_shifts(
            front,
            arguments,
            flags,
            projects,
            index + 1,
            LaunchModel { project_root: Some(arguments[index]), ..request },
        );
        lemma_launch_shifts(
            front,
            arguments,
            flags,
            projects,
            index + 1,
            LaunchModel { log_paths: request.log_paths.push(arguments[index]), ..request },
        );
    }
}

proof fn lemma_option_names()
    ensures
        "--workspace"@ != "--project"@,
        "--workspace"@ != "--logs"@,
        "--project"@ != "--logs"@,
{
    reveal_strlit("--workspace");
    reveal_strlit("--project");
    reveal_strlit("--logs");
    assert("--workspace"@.len() == 11 && "--project"@.len() == 9 && "--logs"@.len() == 6);
}

/// What the first arguments say: `--workspace` names the workspace, `--project` the root of
/// the project, and `--logs` a log file beside those that are known. An argument by itself is
/// the root of the project, where it is the path of one and no project is known yet, and else
/// a log file. The arguments behind are taken into account after that.
pub proof fn lemma_arguments_say_what_to_open(
    argument: Seq<char>,
    flags: (bool, bool),
    arguments: Seq<Seq<char>>,
    projects: Seq<bool>,
    request: LaunchModel,
)
    requires
        arguments.len() == projects.len(),
    ensures
        launch_from(
            seq!["--workspace"@, argument] + arguments,
            seq![flags.0, flags.1] + projects,
            0,
            request,
        ) == launch_from(
            arguments,
            projects,
            0,
            LaunchModel { workspace_path: Some(argument), ..request },
        ),
        launch_from(
            seq!["--project"@, argument] + arguments,
            seq![flags.0, flags.1] + projects,
            0,
            request,
        ) == launch_from(
            arguments,
            projects,
            0,
            LaunchModel { project_root: Some(argument), ..request },
        ),
        launch_from(
            seq!["--logs"@, argument] + arguments,
            seq![flags.0, flags.1] + projects,
            0,
            request,
        ) == launch_from(
            arguments,
            projects,
            0,
            LaunchModel { log_paths: request.log_paths.push(argument), ..request },
        ),
        argument != "--workspace"@ && argument != "--project"@ && argument != "--logs"@
            ==> launch_from(seq![argument] + arguments, seq![flags.0] + projects, 0, request) == (
        if flags.0 && request.project_root is None {
            launch_from(
                arguments,
                projects,
                0,
                LaunchModel { project_root: Some(argument), ..request },
            )
        } else {
            launch_from(
                arguments,
                projects,
                0,
                LaunchModel { log_paths: request.log_paths.push(argument), ..request },
            )
        }),
        launch_from(Seq::empty(), Seq::empty(), 0, request) == request,
{
    lemma_option_names();
    let pair = seq![flags.0, flags.1];
    let workspace = LaunchModel { workspace_path: Some(argument), ..request };
    let project = LaunchModel { project_root: Some(argument), ..request };
    let logs = LaunchModel { log_paths: request.log_paths.push(argument), ..request };
    lemma_launch_shifts(seq!["--workspace"@, argument], arguments, pair, projects, 0, workspace);
    lemma_launch_shifts(seq!["--project"@, argument], arguments, pair, projects, 0, project);
    lemma_launch_shifts(seq!["--logs"@, argument], arguments, pair, projects, 0, logs);
    lemma_launch_shifts(seq![argument], arguments, seq![flags.0], projects, 0, project);
    lemma_launch_shifts(seq![argument], arguments, seq![flags.0], projects, 0, logs);
    let first = seq!["--workspace"@, argument] + arguments;
    assert(first[0] == "--workspace"@ && first[1] == argument);
    let second = seq!["--project"@, argument] + arguments;
    assert(second[0] == "--project"@ && second[1] == argument);
    let third = seq!["--logs"@, argument] + arguments;
    assert(third[0] == "--logs"@ && third[1] == argument);
    assert((seq![argument] + arguments)[0] == argument);
    assert((seq![flags.0] + projects)[0] == flags.0);
}

proof fn lemma_configuration_in_parts(
    arguments: Seq<Seq<char>>,
    index: int,
    known: ConfigurationModel,
    more: Seq<Seq<char>>,
)
    requires
        0 <= index <= arguments.len(),
        configuration_from(arguments, index, known) is Ok,
    ensures
        configuration_from(arguments + more, index, known) == configuration_from(
            arguments + more,
            arguments.len() as int,
            configuration_from(arguments, index, known)->Ok_0,
        ),
    decreases arguments.len() - index,
{
    let longer = arguments + more;
    if index < arguments.len() {
        assert(longer[index] == arguments[index]);
        if index + 1 < arguments.len() {
            assert(longer[index + 1] == arguments[index + 1]);
        }
        let next = arguments[index + 1];
        if arguments[index] == "--force"@ {
            let with = ConfigurationModel { overwrite: true, ..known };
            lemma_configuration_in_parts(arguments, index + 1, with, more);
        } else if arguments[index] == "--project-id"@ {
            let with = ConfigurationModel { id: Some(next), ..known };
            lemma_configuration_in_parts(arguments, index + 2, with, more);
        } else if arguments[index] == "--project-name"@ {
            let with = ConfigurationModel { name: Some(next), ..known };
            lemma_configuration_in_parts(arguments, index + 2, with, more);
        } else {
            let with = ConfigurationModel { sources: known.sources.push(next), ..known };
            lemma_configuration_in_parts(arguments, index + 2, with, more);
        }
    }
}

/// Each option of a configuration says one thing and leaves what the others said: one more
/// `--source` is put behind the sources there are, one more `--project-id` or
/// `--project-name` replaces that text, and `--force` lets a manifest be replaced. An option
/// that does not exist is refused.
pub proof fn lemma_configuration_option_says_one_thing(
    arguments: Seq<Seq<char>>,
    root: Seq<char>,
    known: ConfigurationModel,
    value: Seq<char>,
)
    requires
        configuration_request(arguments) == Ok::<(Seq<char>, ConfigurationModel), Seq<char>>(
            (root, known),
        ),
    ensures
        root == arguments[1],
        configuration_request(arguments + seq!["--source"@, value]) == Ok::<
            (Seq<char>, ConfigurationModel),
            Seq<char>,
        >((root, ConfigurationModel { sources: known.sources.push(value), ..known })),
        configuration_request(arguments + seq!["--project-id"@, value]) == Ok::<
            (Seq<char>, ConfigurationModel),
            Seq<char>,
        >((root, ConfigurationModel { id: Some(value), ..known })),
        configuration_request(arguments + seq!["--project-name"@, value]) == Ok::<
            (Seq<char>, ConfigurationModel),
            Seq<char>,
        >((root, ConfigurationModel { name: Some(value), ..known })),
        configuration_request(arguments + seq!["--force"@]) == Ok::<
            (Seq<char>, ConfigurationModel),
            Seq<char>,
        >((root, ConfigurationModel { overwrite: true, ..known })),
        value != "--source"@ && value != "--project-id"@ && value != "--project-name"@ && value
            != "--force"@ ==> configuration_request(arguments + seq![value]) is Err,
{
    reveal_strlit("--source");
    reveal_strlit("--project-id");
    reveal_strlit("--project-name");
    reveal_strlit("--force");
    assert("--source"@.len() == 8 && "--project-id"@.len() == 12);
    assert("--project-name"@.len() == 14 && "--force"@.len() == 7);
    let start = unknown_configuration();
    let size = arguments.len() as int;
    reveal_with_fuel(configuration_from, 2);
    lemma_configuration_in_parts(arguments, 2, start, seq!["--source"@, value]);
    lemma_configuration_in_parts(arguments, 2, start, seq!["--project-id"@, value]);
    lemma_configuration_in_parts(arguments, 2, start, seq!["--project-name"@, value]);
    lemma_configuration_in_parts(arguments, 2, start, seq!["--force"@]);
    lemma_configuration_in_parts(arguments, 2, start, seq![value]);
    let source = arguments + seq!["--source"@, value];
    assert(source[size] == "--source"@ && source[size + 1] == value);
    let id = arguments + seq!["--project-id"@, value];
    assert(id[size] == "--project-id"@ && id[size + 1] == value);
    let name = arguments + seq!["--project-name"@, value];
    assert(name[size] == "--project-name"@ && name[size + 1] == value);
    let force = arguments + seq!["--force"@];
    assert(force[size] == "--force"@);
    let other = arguments + seq![value];
    assert(other[size] == value);
    assert(source[1] == root && id[1] == root && name[1] == root && force[1] == root);
}

/// A project can be configured with its root, an identifier and a name, and not without.
pub proof fn lemma_configuration_needs_names(
    command: Seq<char>,
    root: Seq<char>,
    id: Seq<char>,
    name: Seq<char>,
)
    ensures
        configuration_request(seq![command, root, "--project-id"@, id, "--project-name"@, name])
            == Ok::<(Seq<char>, ConfigurationModel), Seq<char>>(
            (
                root,
                ConfigurationModel {
                    id: Some(id),
                    name: Some(name),
                    sources: Seq::empty(),
                    overwrite: false,
                },
            ),
        ),
        configuration_request(seq![command, root, "--project-id"@, id]) is Err,
        configuration_request(seq![command, root, "--project-name"@, name]) is Err,
        configuration_request(seq![command]) is Err,
{
    reveal_strlit("--source");
    reveal_strlit("--project-id");
    reveal_strlit("--project-name");
    reveal_strlit("--force");
    assert("--source"@.len() == 8 && "--project-id"@.len() == 12);
    assert("--project-name"@.len() == 14 && "--force"@.len() == 7);
    reveal_with_fuel(configuration_from, 3);
}

}
