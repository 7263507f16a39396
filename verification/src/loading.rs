//! Finding the program to run: which argument names its file, and the texts
//! shown when the file cannot be had.

use vstd::prelude::*;
use vstd::string::StringExecFns;

verus! {

/// The path of the program's file: the argument after the name that the
/// interpreter itself was called by. Where there is none, the text to show.
pub fn get_program_path(args: &[String]) -> (r: Result<String, String>)
    ensures
        match r {
            Ok(path) => args@.len() > 1 && path@ == args@[1]@,
            Err(text) => args@.len() <= 1 && text@ == "No file found"@,
        },
{
    if args.len() <= 1 {
        return Err(String::from_str("No file found"));
    }
    Ok(args[1].clone())
}

/// The text shown when no file is found at `path`.
pub fn error_file_not_found(path: &String) -> (text: String)
    ensures
        text@ == "File not found: "@ + path@,
{
    let mut text = String::from_str("File not found: ");
    text.append(path.as_str());
    text
}

/// The text shown when the file was found and could not be read.
pub fn error_reading_file() -> (text: String)
    ensures
        text@ == "Failed to read file content"@,
{
    String::from_str("Failed to read file content")
}

} // verus!
