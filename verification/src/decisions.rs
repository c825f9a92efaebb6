//! What the smaller decisions of the library come to.
use vstd::prelude::*;

use crate::bookmark::{facet_section_open_request, facet_section_starts_open};
use crate::describe::{format_elapsed, pin_span, ElapsedText, PinInfo};
use crate::event::LogEvent;
use crate::grouping::{error_group_summary, is_error_event, ErrorGroup};
use crate::json::{decimal_text, integer_text, option_view, JsonNumber, JsonValue};
use crate::layout::{default_column_order, TableColumn};
use crate::level::{severity_of, Level};
use crate::list::lemma_distinct;
use crate::logger::{
    archive_suffix, direct_event, dropped_report, takes_more, LoggerConfig, Rotation,
};
use crate::ordered::TextMap;
use crate::project::{
    configured_notice, identifier_part, is_project_path, manifest_source_argument,
    manifest_source_path, portable_path, project_display_name, project_root_from_manifest,
    remote_identifier, suggested_project_id, workspace_display_name, ProjectConfig, ProjectSetup,
    RootPlace,
};
use crate::query::QueryOperator;
use crate::schema::{field_name, Fault, SchemaError};
use crate::settings::{
    adopt_settings, check_workspace_version, places_to_open, starting_settings, startup_error,
    ViewSettings,
};
use crate::store::{text_view, EventStore};
use crate::text::{trimmed, views};
use crate::time::{elapsed, Timestamp};
use crate::update::{compare_release, version_of_tag, version_order, CheckResult};
use crate::natural::Comparison;

verus! {

/// The errors are the events of level error and above.
pub proof fn lemma_errors_are_severe(event: LogEvent, result: bool)
    requires
        call_ensures(is_error_event, (&event,), result),
    ensures
        result <==> severity_of(event.level) >= severity_of(Level::Error),
{
}

/// What is told of a group of errors: nothing of a single event, and otherwise how many there
/// are, and when the first and the last of them came.
pub proof fn lemma_group_is_told(
    group: ErrorGroup,
    first: Option<String>,
    last: Option<String>,
    summary: Option<String>,
)
    requires
        call_ensures(error_group_summary, (group, first, last), summary),
    ensures
        group.count <= 1 ==> summary is None,
        group.count > 1 && first is Some && last is Some ==> summary is Some && summary->0@
            == "Repeated "@ + decimal_text(group.count as nat) + " times · first "@ + first->0@
            + " · last "@ + last->0@,
        group.count > 1 && first is None && last is None ==> summary is Some && summary->0@
            == "Repeated "@ + decimal_text(group.count as nat) + " times · first "@ + "unknown"@
            + " · last "@ + "unknown"@,
{
}

/// The sections of facets that are open at first, and what opens and closes sections: a value
/// that was searched for and found opens its section, whatever else is asked.
pub proof fn lemma_sections_open(
    facet: &str,
    starts: bool,
    found: bool,
    asked: Option<bool>,
    request: Option<bool>,
)
    requires
        call_ensures(facet_section_starts_open, (facet,), starts),
        call_ensures(facet_section_open_request, (found, asked), request),
    ensures
        starts <==> facet@ == "level"@ || facet@ == "source"@ || facet@ == "subsystem"@,
        found ==> request == Some(true),
        !found ==> request == asked,
{
}

/// A project is shown by the name in its manifest, without the white space around it, and by
/// that of its directory where that name is blank or there is none.
pub proof fn lemma_project_is_shown_by_name(
    given: Option<String>,
    directory: Option<String>,
    shown: Option<String>,
)
    requires
        call_ensures(project_display_name, (given, directory), shown),
    ensures
        given is Some && trimmed(given->0@).len() > 0 ==> shown is Some && shown->0@ == trimmed(
            given->0@,
        ),
        given is Some && trimmed(given->0@).len() == 0 ==> option_view(shown) == option_view(
            directory,
        ),
        given is None ==> option_view(shown) == option_view(directory),
{
}

/// A manifest is the file `project.toml` in a directory `.deebugee`. Its project lies around
/// that directory; that of any other file lies in the directory of the file.
pub proof fn lemma_manifests_have_their_place(
    manifest: &str,
    is_file: bool,
    name: Option<&str>,
    parent: Option<&str>,
    has_parent: bool,
    has_grandparent: bool,
    opens: bool,
    root: Result<RootPlace, String>,
)
    requires
        call_ensures(is_project_path, (false, is_file, name, parent), opens),
        call_ensures(
            project_root_from_manifest,
            (manifest, has_parent, parent, has_grandparent),
            root,
        ),
    ensures
        opens <==> is_file && text_view(name) == Some("project.toml"@) && text_view(parent)
            == Some(".deebugee"@),
        root is Ok <==> has_parent && (text_view(parent) == Some(".deebugee"@)
            ==> has_grandparent),
        root is Ok ==> (root->Ok_0 is Grandparent <==> text_view(parent) == Some(".deebugee"@)),
{
}

/// A workspace is shown by the name of the directory of its file, and by that of the one around
/// it where the directory is named `.deebugee`.
pub proof fn lemma_workspace_is_shown_by_directory(
    parent: Option<String>,
    around: Option<String>,
    shown: Option<String>,
    shown_alone: Option<String>,
)
    requires
        call_ensures(workspace_display_name, (parent, true, around), shown),
        call_ensures(workspace_display_name, (parent, false, around), shown_alone),
    ensures
        option_view(parent) == Some(".deebugee"@) ==> option_view(shown) == option_view(around),
        option_view(parent) != Some(".deebugee"@) ==> option_view(shown) == option_view(parent),
        option_view(shown_alone) == option_view(parent),
{
}

/// A path with slashes for backslashes; nothing else in it changes.
pub proof fn lemma_paths_have_slashes(path: &str, portable: String, place: int)
    requires
        call_ensures(portable_path, (path,), portable),
        0 <= place < path@.len(),
    ensures
        portable@.len() == path@.len(),
        path@[place] == '\\' ==> portable@[place] == '/',
        path@[place] != '\\' ==> portable@[place] == path@[place],
{
}

/// The identifier that is suggested for a project: that of its remote repository, where it has
/// one, and otherwise one of its name, marked as local.
pub proof fn lemma_suggested_identifiers(origin: &str, name: &str, with: String, without: String)
    requires
        call_ensures(suggested_project_id, (Some(origin), name), with),
        call_ensures(suggested_project_id, (None, name), without),
    ensures
        without@ == "local."@ + identifier_part(name@),
        remote_identifier(origin@) is Some ==> with@ == remote_identifier(origin@)->0,
        remote_identifier(origin@) is None ==> with@ == without@,
{
}

/// How a manifest names the place of a source: by the way from the root of the project, where
/// it lies there; by that from the directory of local data, where it lies there; and otherwise
/// by its whole path.
pub proof fn lemma_sources_are_named_from_the_root(
    way: &str,
    path: &str,
    from_root: String,
    from_data: String,
    whole: String,
)
    requires
        call_ensures(manifest_source_path, (Some(way), None, path), from_root),
        call_ensures(manifest_source_path, (None, Some(way), path), from_data),
        call_ensures(manifest_source_path, (None, None, path), whole),
        !way@.contains('\\'),
        !path@.contains('\\'),
    ensures
        way@.len() == 0 ==> from_root@ == "."@ && from_data@ == "%LOCALAPPDATA%"@,
        way@.len() > 0 ==> from_root@ == way@ && from_data@ == "%LOCALAPPDATA%/"@ + way@,
        whole@ == path@,
{
    assert(crate::text::with_char(way@, '\\', '/') == way@);
    assert(crate::text::with_char(path@, '\\', '/') == path@);
}

/// A source that begins with a variable stays as it was written; another one becomes absolute,
/// where it can.
pub proof fn lemma_variables_stay_in_sources(source: &str, absolute: String, result: String)
    requires
        call_ensures(manifest_source_argument, (source, Some(absolute)), result),
        !trimmed(source@).contains('\\'),
    ensures
        trimmed(source@).len() > 0 && trimmed(source@)[0] == '%' ==> result@ == trimmed(source@),
        trimmed(source@).len() == 0 || trimmed(source@)[0] != '%' ==> result@ == absolute@,
{
    assert(crate::text::with_char(trimmed(source@), '\\', '/') == trimmed(source@));
}

/// The setup of a new project starts from the name of its directory, with one empty source; that
/// of a project with a manifest starts from the manifest.
pub proof fn lemma_setups_start(
    directory: String,
    origin: Option<String>,
    fresh: ProjectSetup,
    config: ProjectConfig,
    known: ProjectSetup,
)
    requires
        call_ensures(ProjectSetup::new, (Some(directory), origin), fresh),
        call_ensures(ProjectSetup::from_config, (config,), known),
    ensures
        fresh.name@ == directory@,
        fresh.sources@.len() == 1 && fresh.sources@[0]@.len() == 0,
        !fresh.editing_existing && !fresh.confirm_overwrite && fresh.error is None,
        origin is None ==> fresh.id@ == "local."@ + identifier_part(directory@),
        known.name@ == config.name@ && known.id@ == config.id@,
        views(known.sources@) == views(config.sources@),
        known.editing_existing && !known.confirm_overwrite && known.error is None,
{
    assert(views(fresh.sources@).len() == 1);
    assert(views(fresh.sources@)[0] == fresh.sources@[0]@);
}

/// What is told of a project that was configured: its manifest, and how many sources it has.
pub proof fn lemma_configured_project_is_told(manifest: &str, count: usize, notice: String)
    requires
        call_ensures(configured_notice, (manifest, count), notice),
    ensures
        count == 1 ==> notice@ == "Configured "@ + manifest@ + " with "@ + decimal_text(1)
            + " log source"@,
        count != 1 ==> notice@ == "Configured "@ + manifest@ + " with "@ + decimal_text(
            count as nat,
        ) + " log source"@ + "s"@,
{
    if count == 1 {
        let told = "Configured "@ + manifest@ + " with "@ + decimal_text(1) + " log source"@;
        assert(told + Seq::<char>::empty() == told);
    }
}

/// How a time that passed is told: in milliseconds below a second, in seconds below a minute,
/// and from there on in minutes and seconds.
pub proof fn lemma_elapsed_time_is_told(milliseconds: i64, shown: ElapsedText)
    requires
        call_ensures(format_elapsed, (milliseconds,), shown),
    ensures
        milliseconds < 1_000 ==> shown is Exact && shown->Exact_0@ == integer_text(
            milliseconds as int,
        ) + " ms"@,
        1_000 <= milliseconds < 60_000 ==> shown == ElapsedText::Seconds(milliseconds),
        milliseconds >= 60_000 ==> shown is Exact,
{
}

/// Pinned events span the time from the first to the last of them; one alone spans none.
pub proof fn lemma_pins_span_time(pins: Vec<Option<PinInfo>>, span: Option<i64>)
    requires
        call_ensures(pin_span, (&pins,), span),
    ensures
        pins@.len() < 2 ==> span is None,
        pins@.len() >= 2 ==> (span is Some <==> pins@[0] is Some && pins@[pins@.len() - 1] is Some),
        pins@.len() >= 2 && pins@[0] is Some && pins@[pins@.len() - 1] is Some ==> span == Some(
            elapsed(
                pins@[0]->0.timestamp.seconds(),
                pins@[0]->0.timestamp.nanos(),
                pins@[pins@.len() - 1]->0.timestamp.seconds(),
                pins@[pins@.len() - 1]->0.timestamp.nanos(),
            ) as i64,
        ),
{
}

/// A release is offered where its version is above that of the running program, and no other
/// one; a tag that is no version is an error.
pub proof fn lemma_newer_releases_are_offered(tag: &str, running: &str, result: CheckResult)
    requires
        call_ensures(compare_release, (tag, running), result),
    ensures
        result is Failed <==> version_of_tag(tag@) is Err || version_of_tag(running@) is Err,
        version_of_tag(tag@) is Ok && version_of_tag(running@) is Ok ==> (result is Available
            <==> version_order(version_of_tag(tag@)->Ok_0, version_of_tag(running@)->Ok_0)
            == Comparison::Greater),
        result is Available ==> result->Available_0.tag_name@ == tag@
            && result->Available_0.version@ == version_of_tag(tag@)->Ok_0,
{
}

/// Settings of a workspace are read in the one version that there is; others are refused, with
/// the version and the place.
pub proof fn lemma_workspace_versions(version: u16, place: &str, result: Result<(), String>)
    requires
        call_ensures(check_workspace_version, (version, place), result),
    ensures
        result is Ok <==> version == 1,
        result is Err ==> result->Err_0@ == "Unsupported workspace version "@ + decimal_text(
            version as nat,
        ) + " in "@ + place@,
{
}

/// What a start tells of errors: first that too much was asked for, and then what is wrong with
/// the project, and then with the workspace.
pub proof fn lemma_first_error_is_told(
    has_project: bool,
    has_workspace: bool,
    project: Option<String>,
    workspace: Option<String>,
    told: Option<String>,
)
    requires
        call_ensures(startup_error, (has_project, has_workspace, project, workspace), told),
    ensures
        has_project && has_workspace ==> told is Some && told->0@
            == "Use either --project or --workspace, not both"@,
        !(has_project && has_workspace) && project is Some ==> told is Some && told->0@
            == project->0@,
        !(has_project && has_workspace) && project is None ==> option_view(told) == option_view(
            workspace,
        ),
{
}

/// The sources that are opened: those that were asked for, or else those of the project, or
/// else those of the workspace.
pub proof fn lemma_sources_asked_for_come_first<P>(
    asked: Vec<P>,
    project: Option<Vec<P>>,
    workspace: Option<Vec<P>>,
    places: Vec<P>,
)
    requires
        call_ensures(places_to_open::<P>, (asked, project, workspace), places),
    ensures
        asked@.len() > 0 ==> places@ == asked@,
        asked@.len() == 0 && project is Some ==> places@ == project->0@,
        asked@.len() == 0 && project is None && workspace is Some ==> places@ == workspace->0@,
        asked@.len() == 0 && project is None && workspace is None ==> places@.len() == 0,
{
}

/// Settings that are taken over keep what they say. Their columns and their facets stand in
/// them once each, and the limit of events is one that can be had.
pub proof fn lemma_adopted_settings_keep_choices(saved: ViewSettings, adopted: ViewSettings)
    requires
        call_ensures(adopt_settings, (saved,), adopted),
    ensures
        adopted.filter == saved.filter,
        adopted.wrapped_messages == saved.wrapped_messages,
        adopted.semantic_highlighting == saved.semantic_highlighting,
        adopted.stick_to_bottom == saved.stick_to_bottom,
        adopted.color_by == saved.color_by,
        adopted.hidden_facets == saved.hidden_facets,
        adopted.latest_at == saved.latest_at,
        adopted.timestamp_display == saved.timestamp_display,
        adopted.timestamp_format == saved.timestamp_format,
        adopted.group_errors == saved.group_errors,
        adopted.show_fields == saved.show_fields,
        adopted.relative_time_column,
        1 <= adopted.max_events <= 5_000_000,
        1 <= saved.max_events <= 5_000_000 ==> adopted.max_events == saved.max_events,
        views(adopted.facet_order@).no_duplicates(),
        adopted.column_order@.no_duplicates(),
        forall|column: TableColumn| #[trigger] adopted.column_order@.contains(column),
{
    let facets = views(saved.facet_order@) + crate::layout::usual_facets();
    lemma_distinct(facets);
    let columns = if saved.relative_time_column {
        saved.column_order@
    } else {
        crate::layout::without_column(saved.column_order@, TableColumn::RelativeTime)
    };
    crate::layout::lemma_normalized_columns(columns);
    assert forall|column: TableColumn| #[trigger] adopted.column_order@.contains(column) by {
        crate::layout::lemma_every_column_is_usual(column);
    }
}

/// A start without a workspace takes the preferences over, but asks for nothing; one with a
/// workspace asks for what the workspace asks for.
pub proof fn lemma_preferences_ask_for_nothing(
    preferences: ViewSettings,
    workspace: ViewSettings,
    plain: ViewSettings,
    opened: ViewSettings,
)
    requires
        call_ensures(starting_settings, (preferences, None), plain),
        call_ensures(starting_settings, (preferences, Some(workspace)), opened),
    ensures
        plain.filter.text@.len() == 0,
        plain.filter.minimum_level is None,
        plain.filter.correlation is None,
        forall|facet: Seq<char>| !#[trigger] plain.filter.facets@.contains_key(facet),
        plain.color_by == preferences.color_by,
        plain.group_errors == preferences.group_errors,
        plain.latest_at == preferences.latest_at,
        opened.filter == workspace.filter,
        opened.color_by == workspace.color_by,
        opened.group_errors == workspace.group_errors,
        opened.latest_at == workspace.latest_at,
{
}

/// How a log is written unless something else is said; and the least that can be said.
pub proof fn lemma_usual_logs<P>(
    path: P,
    source: String,
    usual: LoggerConfig<P>,
    config: LoggerConfig<P>,
    capacity: usize,
    pending: usize,
    more: bool,
)
    requires
        call_ensures(LoggerConfig::<P>::new, (path, source), usual),
        call_ensures(LoggerConfig::<P>::capacity, (&config,), capacity),
        call_ensures(takes_more, (pending,), more),
    ensures
        usual.path == path,
        usual.source@ == source@,
        usual.queue_capacity == 16_384,
        usual.rotation_bytes == 50 * 1_024 * 1_024,
        usual.archive_count == 4,
        capacity >= 1,
        config.queue_capacity >= 1 ==> capacity == config.queue_capacity,
        more <==> pending < 1_024,
{
}

/// A log has room for one byte at least, and its archives are numbered.
pub proof fn lemma_archives_are_numbered(
    written: u64,
    limit: u64,
    count: usize,
    log: Rotation,
    generation: usize,
    suffix: String,
)
    requires
        call_ensures(Rotation::new, (written, limit, count), log),
        call_ensures(archive_suffix, (generation,), suffix),
    ensures
        log.bytes_written == written,
        log.rotation_bytes >= 1,
        limit >= 1 ==> log.rotation_bytes == limit,
        suffix@ == "."@ + decimal_text(generation as nat),
{
}

/// Events that were lost are reported as a warning that tells how many they were.
pub proof fn lemma_lost_events_are_reported(
    count: u64,
    source: String,
    session: String,
    event: LogEvent,
)
    requires
        call_ensures(dropped_report, (count, source, session), event),
    ensures
        event.level is Warn,
        event.schema_version == 1,
        event.source@ == source@,
        event.subsystem@ == "logging"@,
        event.event@ == "logger.events_dropped"@,
        event.app_session_id@ == session@,
        event.message@ == "Dropped "@ + decimal_text(count as nat)
            + " log events because the writer queue was full"@,
        event.fields@.contains_key("count"@),
        event.fields@["count"@] == JsonValue::Number(JsonNumber::Natural(count)),
{
}

/// An event has the parts that it was made of, and no others.
pub proof fn lemma_events_have_their_parts(
    level: Level,
    source: String,
    subsystem: String,
    name: String,
    message: String,
    session: String,
    fields: TextMap<JsonValue>,
    event: LogEvent,
    plain: LogEvent,
)
    requires
        call_ensures(
            direct_event,
            (level, source, subsystem, name, message, session, fields),
            event,
        ),
        call_ensures(LogEvent::new, (level, source, subsystem, name, message, session), plain),
    ensures
        event.schema_version == 1 && plain.schema_version == 1,
        event.level == level && plain.level == level,
        event.source@ == source@ && plain.source@ == source@,
        event.subsystem@ == subsystem@ && plain.subsystem@ == subsystem@,
        event.event@ == name@ && plain.event@ == name@,
        event.message@ == message@ && plain.message@ == message@,
        event.app_session_id@ == session@ && plain.app_session_id@ == session@,
        event.fields == fields,
        plain.request_id is None && event.request_id is None,
        plain.session_id is None && event.session_id is None,
        plain.playback_session_id is None && event.playback_session_id is None,
        plain.provider is None && event.provider is None,
        plain.target is None && event.target is None,
        plain.status is None && event.status is None,
        plain.error_kind is None && event.error_kind is None,
        plain.duration_ms is None && event.duration_ms is None,
{
}

/// The events of a store are found by their rows, and their identifiers count on from row to
/// row.
pub proof fn lemma_rows_have_identifiers(
    store: EventStore,
    row: usize,
    event: Option<&LogEvent>,
    id: Option<u64>,
    next: Option<u64>,
    length: usize,
    empty: bool,
)
    requires
        row < usize::MAX,
        call_ensures(EventStore::get, (&store, row), event),
        call_ensures(EventStore::event_id, (&store, row), id),
        call_ensures(EventStore::event_id, (&store, (row + 1) as usize), next),
        call_ensures(EventStore::len, (&store,), length),
        call_ensures(EventStore::is_empty, (&store,), empty),
    ensures
        event is Some <==> row < length,
        id is Some <==> row < length,
        next is Some ==> id is Some && next->0 == id->0 + 1,
        event is Some ==> *event->0 == store@.events[row as int],
        empty <==> length == 0,
{
}

/// An error of a record names the member that it is about.
pub proof fn lemma_errors_name_members(
    field: crate::schema::EventField,
    duplicate: String,
    missing: String,
    wrong: String,
)
    requires
        call_ensures(SchemaError::to_text, (SchemaError::Duplicate(field),), duplicate),
        call_ensures(SchemaError::to_text, (SchemaError::Missing(field),), missing),
        call_ensures(
            SchemaError::to_text,
            (SchemaError::Invalid(field, Fault::WrongType),),
            wrong,
        ),
    ensures
        duplicate@ == "duplicate field"@ + " `"@ + field_name(field) + "`"@,
        missing@ == "missing field"@ + " `"@ + field_name(field) + "`"@,
        wrong@ == "unexpected type of field"@ + " `"@ + field_name(field) + "`"@,
{
}

/// The signs of the operators.
pub proof fn lemma_operators_have_signs(
    equal: &'static str,
    unequal: &'static str,
    greater: &'static str,
    at_least: &'static str,
    less: &'static str,
    at_most: &'static str,
)
    requires
        call_ensures(QueryOperator::text, (QueryOperator::Equal,), equal),
        call_ensures(QueryOperator::text, (QueryOperator::NotEqual,), unequal),
        call_ensures(QueryOperator::text, (QueryOperator::Greater,), greater),
        call_ensures(QueryOperator::text, (QueryOperator::GreaterOrEqual,), at_least),
        call_ensures(QueryOperator::text, (QueryOperator::Less,), less),
        call_ensures(QueryOperator::text, (QueryOperator::LessOrEqual,), at_most),
    ensures
        equal@ == "="@,
        unequal@ == "!="@,
        greater@ == ">"@,
        at_least@ == ">="@,
        less@ == "<"@,
        at_most@ == "<="@,
{
}

/// The usual columns: each of them once, the time first and the message last. Their titles tell
/// them apart.
pub proof fn lemma_columns_have_titles(
    columns: Vec<TableColumn>,
    first: TableColumn,
    second: TableColumn,
    title: &'static str,
    other: &'static str,
)
    requires
        call_ensures(default_column_order, (), columns),
        call_ensures(TableColumn::title, (first,), title),
        call_ensures(TableColumn::title, (second,), other),
    ensures
        columns@.contains(first),
        columns@.no_duplicates(),
        columns@[0] == TableColumn::Timestamp,
        columns@[columns@.len() - 1] == TableColumn::Message,
        title@ == other@ ==> first == second,
{
    crate::layout::lemma_every_column_is_usual(first);
    if title@ == other@ {
        crate::layout::lemma_titles_tell_columns_apart(first, second);
    }
    assert(columns@.no_duplicates());
}

}
