use vstd::prelude::*;

use std::path::PathBuf;

use crate::text::same_text;

verus! {

#[verifier::external_type_specification]
#[verifier::external_body]
pub struct ExPathBuf(PathBuf);

/// The command line of the converter.
pub struct Cli {
    /// The ELF file to convert.
    pub input: PathBuf,
    /// The UF2 file to write.
    pub output: PathBuf,
    /// The number of image bytes each UF2 block carries.
    pub payload_size: u32,
    /// The MCU family ID written into every block, when given.
    pub family_id: Option<u32>,
    /// How much to log: 0 warnings, 1 info, 2 debug, more trace.
    pub verbose: u8,
}

/// What `clap_num::maybe_hex::<u32>` gives for the text `s`: the number it writes in decimal, or
/// in hexadecimal after a `0x` or `0X` prefix, or the text of the parse error.
pub uninterp spec fn maybe_hex_u32(s: Seq<char>) -> Result<u32, Seq<char>>;

/// The text of an outcome that carries its error as a `String`.
pub open spec fn text_result<T>(r: Result<T, String>) -> Result<T, Seq<char>> {
    match r {
        Ok(v) => Ok(v),
        Err(e) => Err(e@),
    }
}

/// Calls `clap_num::maybe_hex::<u32>` on `s`. Its result is named, as a function of `s`, by
/// `maybe_hex_u32`; nothing more is claimed of it here.
#[verifier::external_body]
fn maybe_hex(s: &str) -> (r: Result<u32, String>)
    ensures
        text_result(r) == maybe_hex_u32(s@),
{
    clap_num::maybe_hex::<u32>(s)
}

/// The largest payload size the command line accepts.
pub const MAX_PAYLOAD_SIZE: u32 = 476;

/// What checking the parsed payload size `parsed` gives: a size from 1 to 476 that is a multiple
/// of 4, or why it is refused.
pub open spec fn payload_size_check(parsed: Result<u32, Seq<char>>) -> Result<u32, Seq<char>> {
    match parsed {
        Err(e) => Err(e),
        Ok(v) => if v == 0 || v > MAX_PAYLOAD_SIZE {
            Err("payload size must be between 1 and 476"@)
        } else if v % 4 != 0 {
            Err("payload size must be a multiple of 4"@)
        } else {
            Ok(v)
        },
    }
}

/// A payload size is accepted exactly when it was read, is from 1 to 476 and is a multiple of 4;
/// the value accepted is the value read, and a value read but refused gives a message, not the
/// value.
pub proof fn lemma_payload_size_rule(parsed: Result<u32, Seq<char>>)
    ensures
        payload_size_check(parsed) matches Ok(v) ==> parsed == Ok::<u32, Seq<char>>(v) && 1 <= v
            <= 476 && v % 4 == 0,
        parsed matches Ok(v) ==> (1 <= v <= 476 && v % 4 == 0 ==> payload_size_check(parsed)
            == Ok::<u32, Seq<char>>(v)),
        parsed matches Err(e) ==> payload_size_check(parsed) == Err::<u32, Seq<char>>(e),
{
}

/// Checks the payload size `parsed` that was read from the command line.
pub fn check_payload_size(parsed: Result<u32, String>) -> (r: Result<u32, String>)
    ensures
        text_result(r) == payload_size_check(text_result(parsed)),
        r matches Ok(v) ==> 1 <= v <= 476 && v % 4 == 0 && parsed == Ok::<u32, String>(v),
        parsed matches Ok(v) ==> (1 <= v <= 476 && v % 4 == 0 ==> r == Ok::<u32, String>(v)),
{
    proof {
        lemma_payload_size_rule(text_result(parsed));
    }
    let value = match parsed {
        Ok(v) => v,
        Err(e) => return Err(e),
    };
    if value == 0 || value > MAX_PAYLOAD_SIZE {
        return Err("payload size must be between 1 and 476".to_owned());
    }
    if value % 4 != 0 {
        return Err("payload size must be a multiple of 4".to_owned());
    }
    Ok(value)
}

/// Reads the payload size option `s`, in decimal or in hexadecimal after `0x`.
pub fn payload_size_in_range(s: &str) -> (r: Result<u32, String>)
    ensures
        text_result(r) == payload_size_check(maybe_hex_u32(s@)),
        r matches Ok(v) ==> 1 <= v <= 476 && v % 4 == 0 && maybe_hex_u32(s@) == Ok::<
            u32,
            Seq<char>,
        >(v),
        maybe_hex_u32(s@) matches Ok(v) ==> (1 <= v <= 476 && v % 4 == 0 ==> r == Ok::<
            u32,
            String,
        >(v)),
{
    check_payload_size(maybe_hex(s))
}

/// Whether the extension `ext` of a path is `want`.
fn extension_is(ext: Option<&str>, want: &str) -> (r: bool)
    ensures
        r == (ext matches Some(e) && e@ == want@),
{
    match ext {
        Some(e) => same_text(e, want),
        None => false,
    }
}

/// What checking an input path gives, from whether it exists, whether it is a file and whether
/// its extension is `elf`.
pub open spec fn input_path_check(exists: bool, is_file: bool, is_elf: bool) -> Result<(), Seq<char>> {
    if !exists {
        Err("input file does not exist"@)
    } else if !is_file {
        Err("input path is not a file"@)
    } else if !is_elf {
        Err("input file must have .elf extension"@)
    } else {
        Ok(())
    }
}

/// Checks an input path: it must exist, be a file and have the extension `elf`.
pub fn input_file_valid(exists: bool, is_file: bool, extension: Option<&str>) -> (r: Result<
    (),
    String,
>)
    ensures
        text_result(r) == input_path_check(exists, is_file, extension matches Some(e) && e@ == "elf"@),
{
    if !exists {
        return Err("input file does not exist".to_owned());
    }
    if !is_file {
        return Err("input path is not a file".to_owned());
    }
    if !extension_is(extension, "elf") {
        return Err("input file must have .elf extension".to_owned());
    }
    Ok(())
}

/// What checking an output path gives, from whether its directory exists, whether that is a
/// directory and whether its extension is `uf2`.
pub open spec fn output_path_check(parent_exists: bool, parent_is_dir: bool, is_uf2: bool) -> Result<
    (),
    Seq<char>,
> {
    if !parent_exists {
        Err("output directory does not exist"@)
    } else if !parent_is_dir {
        Err("output parent is not a directory"@)
    } else if !is_uf2 {
        Err("output file must have .uf2 extension"@)
    } else {
        Ok(())
    }
}

/// Checks an output path: its directory must exist and be a directory, and it must have the
/// extension `uf2`.
pub fn output_file_valid(parent_exists: bool, parent_is_dir: bool, extension: Option<&str>) -> (r:
    Result<(), String>)
    ensures
        text_result(r) == output_path_check(
            parent_exists,
            parent_is_dir,
            extension matches Some(e) && e@ == "uf2"@,
        ),
{
    if !parent_exists {
        return Err("output directory does not exist".to_owned());
    }
    if !parent_is_dir {
        return Err("output parent is not a directory".to_owned());
    }
    if !extension_is(extension, "uf2") {
        return Err("output file must have .uf2 extension".to_owned());
    }
    Ok(())
}

/// The most detailed kind of log message that is shown.
#[derive(Debug, Clone, Copy, PartialEq, Eq, Structural)]
pub enum LogLevel {
    Warn,
    Info,
    Debug,
    Trace,
}

/// The log level that `verbose` repetitions of `-v` ask for.
pub open spec fn level_for(verbose: u8) -> LogLevel {
    if verbose == 0 {
        LogLevel::Warn
    } else if verbose == 1 {
        LogLevel::Info
    } else if verbose == 2 {
        LogLevel::Debug
    } else {
        LogLevel::Trace
    }
}

/// Chooses the log level for `verbose` repetitions of `-v`: warnings only, then info, debug and
/// trace messages.
pub fn log_level(verbose: u8) -> (r: LogLevel)
    ensures
        r == level_for(verbose),
{
    match verbose {
        0 => LogLevel::Warn,
        1 => LogLevel::Info,
        2 => LogLevel::Debug,
        _ => LogLevel::Trace,
    }
}

} // verus!
