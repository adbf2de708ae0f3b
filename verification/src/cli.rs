//! The command line of the program.

use vstd::prelude::*;

use crate::csv_reader::CsvReadError;

verus! {

/// Why the program stops with an error.
#[derive(Debug)]
pub enum AppError {
    /// Reading the CSV input failed.
    CsvReadError(CsvReadError),
    /// Exactly one argument must be provided to represent the CSV path.
    ArgsLengthError,
}

/// The CSV path from the program's arguments (the program name first): there
/// must be exactly one argument after the program name.
pub fn csv_path_from_args(args: &Vec<String>) -> (r: Result<String, AppError>)
    ensures
        match r {
            Ok(path) => args.len() == 2 && path@ == args@[1]@,
            Err(AppError::ArgsLengthError) => args.len() != 2,
            Err(_) => false,
        },
{
    if args.len() != 2 {
        return Err(AppError::ArgsLengthError);
    }
    Ok(args[1].clone())
}

} // verus!
