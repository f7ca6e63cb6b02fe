//! Locations of a pipeline's on-disk files, derived from the runner's
//! configured directory. Paths are built as text: the directory, a separator,
//! and a per-pipeline segment carrying the pipeline id in decimal.

use vstd::prelude::*;
use vstd::string::StringExecFns;

verus! {

/// The id of a running pipeline, as the job store hands it out.
pub type PipelineId = i64;

/// The decimal digit character for a value below ten.
pub open spec fn digit_char(d: nat) -> char {
    if d == 0 {
        '0'
    } else if d == 1 {
        '1'
    } else if d == 2 {
        '2'
    } else if d == 3 {
        '3'
    } else if d == 4 {
        '4'
    } else if d == 5 {
        '5'
    } else if d == 6 {
        '6'
    } else if d == 7 {
        '7'
    } else if d == 8 {
        '8'
    } else {
        '9'
    }
}

/// The decimal digits of a natural number, most significant first, without
/// leading zeros (a single zero for zero).
pub open spec fn dec_digits(n: nat) -> Seq<char>
    decreases n,
{
    if n < 10 {
        seq![digit_char(n)]
    } else {
        dec_digits(n / 10).push(digit_char(n % 10))
    }
}

/// The decimal text of an integer: a minus sign before the digits of its
/// magnitude when negative.
pub open spec fn dec_text(i: int) -> Seq<char> {
    if i >= 0 {
        dec_digits(i as nat)
    } else {
        seq!['-'] + dec_digits((-i) as nat)
    }
}

/// Relies on `String::push`: appends exactly one character.
#[verifier::external_body]
fn push_char(s: &mut String, c: char)
    ensures
        final(s)@ == old(s)@.push(c),
{
    s.push(c);
}

/// Executable form of `digit_char`.
fn digit_char_exec(d: u64) -> (c: char)
    requires
        d < 10,
    ensures
        c == digit_char(d as nat),
{
    match d {
        0 => '0',
        1 => '1',
        2 => '2',
        3 => '3',
        4 => '4',
        5 => '5',
        6 => '6',
        7 => '7',
        8 => '8',
        _ => '9',
    }
}

/// Appends the decimal digits of `n` to `s`.
fn push_dec_digits(s: &mut String, n: u64)
    ensures
        final(s)@ == old(s)@ + dec_digits(n as nat),
    decreases n,
{
    if n < 10 {
        push_char(s, digit_char_exec(n));
        proof {
            assert(final(s)@ =~= old(s)@ + dec_digits(n as nat));
        }
    } else {
        push_dec_digits(s, n / 10);
        push_char(s, digit_char_exec(n % 10));
        proof {
            assert(final(s)@ =~= old(s)@ + dec_digits(n as nat));
        }
    }
}

/// Appends the decimal text of `i` to `s`.
fn push_dec_text(s: &mut String, i: i64)
    ensures
        final(s)@ == old(s)@ + dec_text(i as int),
{
    if i >= 0 {
        push_dec_digits(s, i as u64);
    } else {
        push_char(s, '-');
        let mag: u64 = if i == i64::MIN {
            9223372036854775808u64
        } else {
            (-i) as u64
        };
        proof {
            assert(mag as int == -(i as int));
        }
        push_dec_digits(s, mag);
        proof {
            assert(final(s)@ =~= old(s)@ + dec_text(i as int));
        }
    }
}

/// Where the runner keeps each pipeline's files.
pub struct RunnerConfig {
    /// The directory under which every pipeline gets its own subdirectory.
    pub pipeline_directory: String,
}

/// The per-pipeline directory: the configured directory, a separator, and a
/// segment naming the pipeline by its id.
pub open spec fn pipeline_dir_text(dir: Seq<char>, pipeline_id: int) -> Seq<char> {
    dir + "/pipeline"@ + dec_text(pipeline_id)
}

impl RunnerConfig {
    /// The directory holding one pipeline's files.
    pub fn pipeline_dir(&self, pipeline_id: PipelineId) -> (r: String)
        ensures
            r@ == pipeline_dir_text(self.pipeline_directory@, pipeline_id as int),
    {
        let mut out = self.pipeline_directory.clone();
        out.append("/pipeline");
        push_dec_text(&mut out, pipeline_id);
        out
    }

    /// The pipeline's configuration file.
    pub fn config_file_path(&self, pipeline_id: PipelineId) -> (r: String)
        ensures
            r@ == pipeline_dir_text(self.pipeline_directory@, pipeline_id as int)
                + "/config.yaml"@,
    {
        let mut out = self.pipeline_dir(pipeline_id);
        out.append("/config.yaml");
        out
    }

    /// The pipeline's metadata file.
    pub fn metadata_file_path(&self, pipeline_id: PipelineId) -> (r: String)
        ensures
            r@ == pipeline_dir_text(self.pipeline_directory@, pipeline_id as int)
                + "/metadata.json"@,
    {
        let mut out = self.pipeline_dir(pipeline_id);
        out.append("/metadata.json");
        out
    }

    /// The pipeline's log file.
    pub fn log_file_path(&self, pipeline_id: PipelineId) -> (r: String)
        ensures
            r@ == pipeline_dir_text(self.pipeline_directory@, pipeline_id as int)
                + "/pipeline.log"@,
    {
        let mut out = self.pipeline_dir(pipeline_id);
        out.append("/pipeline.log");
        out
    }
}

} // verus!
