//! Parser and diff engine for the module summary section of IAR linker map
//! reports.
//!
//! A map report contains, somewhere in its body, a `MODULE SUMMARY` section:
//! a banner of asterisk rows, a two-line column header, and one or more
//! object groups, each a free-text header line followed by a fixed-width
//! table of object file rows and a dashed terminator line.  [`parse_map_file`]
//! turns such a byte buffer into a sequence of [`ObjModuleTable`] values.
//! [`diff::analyze`] then compares two such parses: groups present on one
//! side only, object files present on one side only, and field-wise size
//! deltas for object files present on both sides.
//!
//! The text of a report is modelled as ASCII: every object name and group
//! header is a run of ASCII bytes, read one character per byte.

use vstd::prelude::*;

pub mod codec;
pub mod diff;
pub mod module;
pub mod scan;
pub mod strutil;
pub mod table;

pub use module::Module;
pub use diff::analyze;
pub use scan::ObjModuleTable;
pub use table::ModuleMap;

use scan::{parse_module_summaries, report_matches, spec_parse_module_summaries};

verus! {

/// Name column width of the reference report layout, in bytes.
pub const MODULE_NAME_BYTES: usize = 35;

/// Whether a parse of the given bytes succeeds: the summary section is
/// found and holds at least one object group.
pub open spec fn spec_parse_ok(input: Seq<u8>) -> bool {
    match spec_parse_module_summaries(input, MODULE_NAME_BYTES as int) {
        Some(g) => g.len() >= 1,
        None => false,
    }
}

/// Parse a map report, returning the module summary tables, or a string
/// representing an error message.
///
/// The parse fails -- with no partial result -- when the summary banner is
/// never found, the column header does not match, the next section's
/// marker is missing, or no object group parses.
pub fn parse_map_file(input: &[u8]) -> (r: Result<Vec<ObjModuleTable>, &'static str>)
    ensures
        spec_parse_ok(input@) ==> (r matches Ok(v) && report_matches(
            v@,
            spec_parse_module_summaries(input@, MODULE_NAME_BYTES as int)->0,
        )),
        !spec_parse_ok(input@) ==> (r matches Err(m) && m@ == "Failed to parse"@),
{
    match parse_module_summaries(input, MODULE_NAME_BYTES) {
        Some(v) => {
            if v.len() >= 1 {
                Ok(v)
            } else {
                Err("Failed to parse")
            }
        },
        None => Err("Failed to parse"),
    }
}

/// Accepts the command-line argument vector and returns the two map file
/// paths, or a usage error when the argument count is wrong.
pub fn handle_args(args: Vec<String>) -> (r: Result<(String, String), &'static str>)
    ensures
        args@.len() == 3 ==> (r matches Ok(p) && p.0@ == args@[1]@ && p.1@ == args@[2]@),
        args@.len() != 3 ==> (r matches Err(m) && m@ == "Please provide the paths for two IAR map files"@),
{
    if args.len() != 3 {
        Result::Err("Please provide the paths for two IAR map files")
    } else {
        Ok((args[1].clone(), args[2].clone()))
    }
}

} // verus!
