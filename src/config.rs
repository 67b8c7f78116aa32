//! The user's configuration, as plain values.

use crate::format_string::FormatString;
use vstd::prelude::*;

verus! {

#[derive(Debug, Clone)]
pub struct Config {
    pub employee_name: String,
    pub employee_number: String,
    pub cost_center: String,
    pub performance_type: String,
    pub accounting_cycle: String,
    pub default_attendance: String,
    pub output: OutputConfig,
    /// Known attendance codes with a hint each, codes unique.
    pub attendance_types: Vec<(String, String)>,
}

#[derive(Debug, Clone)]
pub struct OutputConfig {
    pub upload_destination: String,
    pub file_name_format: FormatString,
    pub keys: Vec<String>,
    pub values: Vec<FormatString>,
    pub delimiter: String,
}

} // verus!
