//! The commands and options of the command line, as plain values.

use crate::activity_range::ActivityRange;
use vstd::prelude::*;

verus! {

#[derive(Debug, Clone)]
pub struct Cli {
    pub command: TtrCommand,
}

#[derive(Debug, Clone)]
pub enum TtrCommand {
    Start(Start),
    End(End),
    Show(Show),
    Edit(Edit),
    Generate(Generate),
    Activity(ActivityCommand),
    /// Easily generate a timetrack configuration file
    MakeConfig,
    ListAttendanceTypes(ListAttendanceTypes),
}

/// Edit or list trackable activities
#[derive(Debug, Clone)]
pub enum ActivityCommand {
    Define(SetActivity),
    Rm(RemoveActivity),
    Mv(MoveActivity),
    Ls(ListActivities),
}

/// Start tracking time for a specified activity; this ends tracking of the
/// previous activity.
#[derive(Debug, Clone)]
pub struct Start {
    /// Start tracking time for this activity
    pub activity: String,
    /// The attendance type of this entry; later entries keep it by default
    pub attendance: Option<String>,
    /// A custom description for this entry
    pub description: Option<String>,
    pub verbose: bool,
}

/// Stop tracking time
#[derive(Debug, Clone)]
pub struct End {
    pub verbose: bool,
}

/// Show latest tracked activity or activities
#[derive(Debug, Clone)]
pub struct Show {
    pub mode: ShowMode,
    /// How many activities, or which time frame, to show
    pub last: ActivityRange,
    pub machine_readable: bool,
}

#[derive(Debug, Clone, Copy, PartialEq, Eq, Structural)]
pub enum ShowMode {
    /// Show individual activity entries
    Entries,
    /// Show a summary of tracked activities
    Collapsed,
    /// Show daily time and attendance, derived from selected activities
    Attendance,
    /// Show the total tracked time, derived from selected activities
    Time,
}

/// Open the activity log in an editor
#[derive(Debug, Clone)]
pub struct Edit {
    pub target: EditTarget,
}

#[derive(Debug, Clone, Copy, PartialEq, Eq, Structural)]
pub enum EditTarget {
    /// The entry log file
    Entries,
    /// The config file
    Config,
    /// The activity definition file
    Activities,
}

/// Generate output file for a specified time frame
#[derive(Debug, Clone)]
pub struct Generate {
    /// Print to stdout instead of saving to file
    pub stdout: bool,
    /// Save to custom filepath
    pub file_path: Option<String>,
}

/// Define a new trackable activity
#[derive(Debug, Clone)]
pub struct SetActivity {
    pub name: String,
    pub wbs: String,
    pub description: Option<String>,
    /// Allow overwriting existing activities
    pub force: bool,
}

/// Remove a specified trackable activity
#[derive(Debug, Clone)]
pub struct RemoveActivity {
    pub name: String,
    /// Allow removing activity hierarchies
    pub recursive: bool,
}

/// Rename a specified trackable activity
#[derive(Debug, Clone)]
pub struct MoveActivity {
    pub from: String,
    pub to: String,
}

/// List all trackable activities
#[derive(Debug, Clone)]
pub struct ListActivities {
    /// List contents of a given activity category
    pub name: Option<String>,
    /// Show contents of activity categories
    pub recursive: bool,
    pub machine_readable: bool,
}

/// Print out configured attendance types
#[derive(Debug, Clone)]
pub struct ListAttendanceTypes {
    pub machine_readable: bool,
}

} // verus!
