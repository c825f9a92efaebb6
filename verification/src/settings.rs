//! The settings of the viewer, and which of them a start takes over.
use vstd::prelude::*;

use crate::facet::{FacetSelection, FilterState};
use crate::follow::LatestAt;
use crate::json::{decimal_text, natural_to_text, option_view};
use crate::layout::{
    all_columns, default_column_order, default_facet_order, normalize_facet_order,
    normalize_saved_column_order, normalized_columns, usual_facets, without_column, ColorBy,
    TableColumn, TimestampDisplay,
};
use crate::list::distinct;
use crate::ordered::TextSet;
use crate::store::DEFAULT_MAX_EVENTS;
use crate::text::{owned, views};
use crate::viewer::MAX_CONFIGURABLE_EVENTS;

verus! {

/// The version of saved settings.
pub const SETTINGS_VERSION: u16 = 1;

/// The way in which timestamps are written, unless something else is asked for.
pub const DEFAULT_TIMESTAMP_FORMAT: &'static str = "%Y-%m-%d %H:%M:%S%.3f %:z";

/// How the events are shown.
pub struct ViewSettings {
    pub filter: FilterState,
    pub column_order: Vec<TableColumn>,
    pub relative_time_column: bool,
    pub wrapped_messages: bool,
    pub semantic_highlighting: bool,
    pub stick_to_bottom: bool,
    pub color_by: ColorBy,
    pub facet_order: Vec<String>,
    pub hidden_facets: TextSet,
    pub latest_at: LatestAt,
    pub max_events: usize,
    pub timestamp_display: TimestampDisplay,
    pub timestamp_format: String,
    pub group_errors: bool,
    pub show_fields: bool,
}

impl Default for ViewSettings {
    fn default() -> (settings: Self)
        ensures
            settings.filter.facets@ == Map::<Seq<char>, FacetSelection>::empty(),
            settings.filter.text@ == Seq::<char>::empty(),
            settings.filter.minimum_level is None,
            settings.filter.correlation is None,
            settings.column_order@ == all_columns(),
            settings.relative_time_column,
            settings.wrapped_messages,
            !settings.semantic_highlighting,
            settings.stick_to_bottom,
            settings.color_by is Off,
            views(settings.facet_order@) == usual_facets(),
            settings.hidden_facets@ == Set::<Seq<char>>::empty(),
            settings.latest_at is Bottom,
            settings.max_events == DEFAULT_MAX_EVENTS,
            settings.timestamp_display is Local,
            settings.timestamp_format@ == DEFAULT_TIMESTAMP_FORMAT@,
            !settings.group_errors,
            !settings.show_fields,
    {
        ViewSettings {
            filter: FilterState::default(),
            column_order: default_column_order(),
            relative_time_column: true,
            wrapped_messages: true,
            semantic_highlighting: false,
            stick_to_bottom: true,
            color_by: ColorBy::Off,
            facet_order: default_facet_order(),
            hidden_facets: TextSet::new(),
            latest_at: LatestAt::Bottom,
            max_events: DEFAULT_MAX_EVENTS,
            timestamp_display: TimestampDisplay::Local,
            timestamp_format: owned(DEFAULT_TIMESTAMP_FORMAT),
            group_errors: false,
            show_fields: false,
        }
    }
}

/// A limit of the number of events that is in its bounds.
pub open spec fn bounded_limit(limit: usize) -> usize {
    if limit < 1 {
        1
    } else if limit > MAX_CONFIGURABLE_EVENTS {
        MAX_CONFIGURABLE_EVENTS
    } else {
        limit
    }
}

/// Saved settings as they are taken over: the columns and the facets in order, and
/// the limit in its bounds.
pub open spec fn is_adopted(saved: ViewSettings, adopted: ViewSettings) -> bool {
    &&& adopted.filter == saved.filter
    &&& adopted.column_order@ == normalized_columns(
        if saved.relative_time_column {
            saved.column_order@
        } else {
            without_column(saved.column_order@, TableColumn::RelativeTime)
        },
    )
    &&& adopted.relative_time_column
    &&& adopted.wrapped_messages == saved.wrapped_messages
    &&& adopted.semantic_highlighting == saved.semantic_highlighting
    &&& adopted.stick_to_bottom == saved.stick_to_bottom
    &&& adopted.color_by == saved.color_by
    &&& views(adopted.facet_order@) == distinct(views(saved.facet_order@) + usual_facets())
    &&& adopted.hidden_facets == saved.hidden_facets
    &&& adopted.latest_at == saved.latest_at
    &&& adopted.max_events == bounded_limit(saved.max_events)
    &&& adopted.timestamp_display == saved.timestamp_display
    &&& adopted.timestamp_format == saved.timestamp_format
    &&& adopted.group_errors == saved.group_errors
    &&& adopted.show_fields == saved.show_fields
}

/// Takes saved settings over.
pub fn adopt_settings(saved: ViewSettings) -> (adopted: ViewSettings)
    ensures
        is_adopted(saved, adopted),
{
    ViewSettings {
        filter: saved.filter,
        column_order: normalize_saved_column_order(
            saved.column_order,
            saved.relative_time_column,
        ),
        relative_time_column: true,
        wrapped_messages: saved.wrapped_messages,
        semantic_highlighting: saved.semantic_highlighting,
        stick_to_bottom: saved.stick_to_bottom,
        color_by: saved.color_by,
        facet_order: normalize_facet_order(saved.facet_order),
        hidden_facets: saved.hidden_facets,
        latest_at: saved.latest_at,
        max_events: if saved.max_events < 1 {
            1
        } else if saved.max_events > MAX_CONFIGURABLE_EVENTS {
            MAX_CONFIGURABLE_EVENTS
        } else {
            saved.max_events
        },
        timestamp_display: saved.timestamp_display,
        timestamp_format: saved.timestamp_format,
        group_errors: saved.group_errors,
        show_fields: saved.show_fields,
    }
}

/// The settings of a start: those of the workspace, or else the preferences, but
/// without a filter.
pub fn starting_settings(preferences: ViewSettings, workspace: Option<ViewSettings>) -> (settings:
    ViewSettings)
    ensures
        match workspace {
            Some(saved) => is_adopted(saved, settings),
            None => {
                &&& is_adopted(
                    ViewSettings { filter: settings.filter, ..preferences },
                    settings,
                )
                &&& settings.filter.facets@ == Map::<
                    Seq<char>,
                    FacetSelection,
                >::empty()
                &&& settings.filter.text@ == Seq::<char>::empty()
                &&& settings.filter.minimum_level is None
                &&& settings.filter.correlation is None
            },
        },
{
    match workspace {
        Some(saved) => adopt_settings(saved),
        None => adopt_settings(ViewSettings { filter: FilterState::default(), ..preferences }),
    }
}

/// What is wrong with the version of a workspace.
pub fn check_workspace_version(version: u16, place: &str) -> (result: Result<(), String>)
    ensures
        match result {
            Ok(_) => version == SETTINGS_VERSION,
            Err(message) => version != SETTINGS_VERSION && message@
                == "Unsupported workspace version "@ + decimal_text(version as nat) + " in "@
                + place@,
        },
{
    if version == SETTINGS_VERSION {
        return Ok(());
    }
    let mut message = owned("Unsupported workspace version ");
    let number = natural_to_text(version as u64);
    message.append(number.as_str());
    message.append(" in ");
    message.append(place);
    Err(message)
}

/// What a start tells of errors: that a project and a workspace were both asked
/// for, or else what is wrong with the project, or else with the workspace.
pub fn startup_error(
    has_project: bool,
    has_workspace: bool,
    project_error: Option<String>,
    workspace_error: Option<String>,
) -> (error: Option<String>)
    ensures
        option_view(error) == if has_project && has_workspace {
            Some("Use either --project or --workspace, not both"@)
        } else if project_error is Some {
            option_view(project_error)
        } else {
            option_view(workspace_error)
        },
{
    if has_project && has_workspace {
        return Some(owned("Use either --project or --workspace, not both"));
    }
    match project_error {
        Some(error) => Some(error),
        None => workspace_error,
    }
}

/// The places that a start opens: those that were asked for, or else those of the
/// project, or else those of the workspace.
pub fn places_to_open<P>(
    asked_for: Vec<P>,
    project: Option<Vec<P>>,
    workspace: Option<Vec<P>>,
) -> (places: Vec<P>)
    ensures
        if asked_for@.len() > 0 {
            places == asked_for
        } else {
            match (project, workspace) {
                (Some(sources), _) => places == sources,
                (None, Some(sources)) => places == sources,
                (None, None) => places@.len() == 0,
            }
        },
{
    if asked_for.len() > 0 {
        return asked_for;
    }
    match project {
        Some(sources) => sources,
        None => match workspace {
            Some(sources) => sources,
            None => Vec::new(),
        },
    }
}

/// A limit of the number of events is taken over as it is between one and five million, and
/// else the bound that is nearer.
pub proof fn lemma_limits_are_bounded(limit: usize)
    ensures
        1 <= bounded_limit(limit) <= 5_000_000,
        1 <= limit <= 5_000_000 ==> bounded_limit(limit) == limit,
        limit > 5_000_000 ==> bounded_limit(limit) == 5_000_000,
{
}

}
