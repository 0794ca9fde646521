//! The command-line client's decisions: where outputs go, how overrides
//! apply, and how the server's answers are read while a job runs.

use vstd::prelude::*;
use crate::config::ClientConfig;
use crate::digits::{all_digits, decimal, digits_value, parse_digits, push_decimal};
use crate::paths::{last_index, path_join, path_stem, with_file_name, find_last, join_chars, lemma_last_index_bounds, stem_of_path, sub_chars, with_file_name_chars};
use crate::text::{
    fit_count, lemma_fit_all, push_chars, push_str_chars, str_chars, string_from_chars, utf8_len,
    utf8_prefix,
};

verus! {

// ---------------------------------------------------------------- output paths

/// Where the timeline of `input` is written: `<stem>.json` in the output
/// directory when one is set, else beside the input.
pub open spec fn output_path_for(input: Seq<char>, output_dir: Option<Seq<char>>) -> Seq<char> {
    let name = path_stem(input) + ".json"@;
    match output_dir {
        Some(d) => path_join(d, name),
        None => with_file_name(input, name),
    }
}

/// The output path of a processed file.
pub fn compute_output_path(input_path: &str, output_dir: Option<&str>) -> (p: String)
    ensures
        p@ == output_path_for(
            input_path@,
            match output_dir {
                Some(d) => Some(d@),
                None => None,
            },
        ),
{
    let cs = str_chars(input_path);
    let stem = stem_of_path(cs.as_slice());
    let mut name = string_from_chars(stem.as_slice());
    push_str_chars(&mut name, ".json");
    let nc = str_chars(name.as_str());
    let r = match output_dir {
        Some(d) => {
            let dc = str_chars(d);
            join_chars(dc.as_slice(), nc.as_slice())
        },
        None => with_file_name_chars(cs.as_slice(), nc.as_slice()),
    };
    string_from_chars(r.as_slice())
}

/// Where a formatted document goes: `<stem>_formatted.md` beside the input.
pub open spec fn format_output_path_for(input: Seq<char>) -> Seq<char> {
    with_file_name(input, path_stem(input) + "_formatted.md"@)
}

/// The output path of a formatted document.
pub fn compute_format_output_path(input_path: &str) -> (p: String)
    ensures
        p@ == format_output_path_for(input_path@),
{
    let cs = str_chars(input_path);
    let stem = stem_of_path(cs.as_slice());
    let mut name = string_from_chars(stem.as_slice());
    push_str_chars(&mut name, "_formatted.md");
    let nc = str_chars(name.as_str());
    let r = with_file_name_chars(cs.as_slice(), nc.as_slice());
    string_from_chars(r.as_slice())
}

/// Where the timeline of a downloaded video goes: `<stem of its source>.json`
/// in the output directory, or in the working directory.
pub open spec fn url_output_path_for(source: Seq<char>, output_dir: Option<Seq<char>>) -> Seq<char> {
    let name = path_stem(source) + ".json"@;
    match output_dir {
        Some(d) => path_join(d, name),
        None => name,
    }
}

/// The output path of a processed download.
pub fn url_output_path(source: &str, output_dir: Option<&str>) -> (p: String)
    ensures
        p@ == url_output_path_for(
            source@,
            match output_dir {
                Some(d) => Some(d@),
                None => None,
            },
        ),
{
    let cs = str_chars(source);
    let stem = stem_of_path(cs.as_slice());
    let mut name = string_from_chars(stem.as_slice());
    push_str_chars(&mut name, ".json");
    match output_dir {
        Some(d) => {
            let dc = str_chars(d);
            let nc = str_chars(name.as_str());
            let r = join_chars(dc.as_slice(), nc.as_slice());
            string_from_chars(r.as_slice())
        },
        None => name,
    }
}

// ---------------------------------------------------------------- overrides

/// A port as `str::parse::<u16>` reads it: decimal digits after an optional
/// `+`, at most 65535.
pub open spec fn port_value(s: Seq<char>) -> Option<u16> {
    let d = if s.len() > 0 && s[0] == '+' {
        s.drop_first()
    } else {
        s
    };
    if d.len() > 0 && all_digits(d) && digits_value(d) <= 65535 {
        Some(digits_value(d) as u16)
    } else {
        None
    }
}

/// Reads a port number.
pub fn parse_port(s: &[char]) -> (r: Option<u16>)
    ensures
        r == port_value(s@),
{
    let d = if s.len() > 0 && s[0] == '+' {
        sub_chars(s, 1, s.len())
    } else {
        sub_chars(s, 0, s.len())
    };
    assert(s@.subrange(0, s@.len() as int) == s@);
    if d.len() == 0 {
        return None;
    }
    match parse_digits(d.as_slice()) {
        Some(v) => if v <= 65535 {
            Some(v as u16)
        } else {
            None
        },
        None => None,
    }
}

/// The host and port a `--server` value sets: split at the last `:` when
/// what follows reads as a port; otherwise the whole value is the host and
/// the port stays.
pub open spec fn server_override(srv: Seq<char>, port: u16) -> (Seq<char>, u16) {
    match last_index(srv, ':') {
        Some(i) => match port_value(srv.subrange(i + 1, srv.len() as int)) {
            Some(p) => (srv.subrange(0, i), p),
            None => (srv, port),
        },
        None => (srv, port),
    }
}

/// Applies the command line's `--server` and `--output` to a configuration.
pub fn apply_cli_overrides(config: &mut ClientConfig, server: Option<&str>, output: Option<&str>)
    ensures
        match server {
            Some(srv) => final(config).server.host@ == server_override(
                srv@,
                old(config).server.port,
            ).0 && final(config).server.port == server_override(srv@, old(config).server.port).1,
            None => final(config).server == old(config).server,
        },
        match output {
            Some(o) => final(config).output.dir matches Some(d) && d@ == o@,
            None => final(config).output == old(config).output,
        },
        final(config).polling == old(config).polling,
        final(config).openai == old(config).openai,
{
    match server {
        Some(srv) => {
            let cs = str_chars(srv);
            proof {
                lemma_last_index_bounds(cs@, ':');
            }
            match find_last(cs.as_slice(), ':') {
                Some(i) => {
                    assert(i < cs.len());
                    let port_part = sub_chars(cs.as_slice(), i + 1, cs.len());
                    match parse_port(port_part.as_slice()) {
                        Some(port) => {
                            let host = sub_chars(cs.as_slice(), 0, i);
                            config.server.host = string_from_chars(host.as_slice());
                            config.server.port = port;
                        },
                        None => {
                            config.server.host = srv.to_owned();
                        },
                    }
                },
                None => {
                    config.server.host = srv.to_owned();
                },
            }
        },
        None => {},
    }
    match output {
        Some(o) => {
            config.output.dir = Some(o.to_owned());
        },
        None => {},
    }
}

// ---------------------------------------------------------------- polling

/// The report of a job that outlasted the client's patience.
pub open spec fn timeout_text(timeout_secs: u64, job_id: Seq<char>) -> Seq<char> {
    "timed out after "@ + decimal(timeout_secs as nat) + "s waiting for job "@ + job_id
}

/// Whether the client still waits after `elapsed` seconds.
pub fn poll_deadline(elapsed: u64, timeout_secs: u64, job_id: &str) -> (r: Result<(), String>)
    ensures
        r is Ok <==> elapsed <= timeout_secs,
        r matches Err(m) ==> m@ == timeout_text(timeout_secs, job_id@),
{
    if elapsed > timeout_secs {
        let mut m = String::new();
        push_str_chars(&mut m, "timed out after ");
        push_decimal(&mut m, timeout_secs);
        push_str_chars(&mut m, "s waiting for job ");
        push_str_chars(&mut m, job_id);
        return Err(m);
    }
    Ok(())
}

/// What a reported job status means for the client: done, failed with the
/// server's error (or `unknown error`), or still running.
pub open spec fn job_outcome_of(status: Seq<char>, error: Option<Seq<char>>) -> Option<
    Result<(), Seq<char>>,
> {
    if status == "completed"@ {
        Some(Ok(()))
    } else if status == "failed"@ {
        Some(
            Err(
                "job failed: "@ + match error {
                    Some(e) => e,
                    None => "unknown error"@,
                },
            ),
        )
    } else {
        None
    }
}

/// Reads a job status; `None` while the job is still running.
pub fn job_outcome(status: &str, error: Option<&str>) -> (r: Option<Result<(), String>>)
    ensures
        match (r, job_outcome_of(
            status@,
            match error {
                Some(e) => Some(e@),
                None => None,
            },
        )) {
            (None, None) => true,
            (Some(Ok(())), Some(Ok(()))) => true,
            (Some(Err(m)), Some(Err(n))) => m@ == n,
            _ => false,
        },
{
    if crate::config::str_eq(status, "completed") {
        return Some(Ok(()));
    }
    if crate::config::str_eq(status, "failed") {
        let mut m = String::new();
        push_str_chars(&mut m, "job failed: ");
        match error {
            Some(e) => push_str_chars(&mut m, e),
            None => push_str_chars(&mut m, "unknown error"),
        }
        return Some(Err(m));
    }
    None
}

/// The report of a refused request: the status and the server's error, or
/// the raw body when it carries none.
pub fn server_error_text(status: &str, body: &str, error: Option<&str>) -> (m: String)
    ensures
        m@ == "server error ("@ + status@ + "): "@ + match error {
            Some(e) => e@,
            None => body@,
        },
{
    let mut m = String::new();
    push_str_chars(&mut m, "server error (");
    push_str_chars(&mut m, status);
    push_str_chars(&mut m, "): ");
    match error {
        Some(e) => push_str_chars(&mut m, e),
        None => push_str_chars(&mut m, body),
    }
    m
}

/// The outcome of processing a directory: an error naming how many files
/// failed, when any did.
pub fn batch_outcome(success: usize, total: usize) -> (r: Result<(), String>)
    requires
        success <= total,
    ensures
        r is Ok <==> success == total,
        r matches Err(m) ==> m@ == decimal((total - success) as nat) + " file(s) failed"@,
{
    if success < total {
        let mut m = String::new();
        push_decimal(&mut m, (total - success) as u64);
        push_str_chars(&mut m, " file(s) failed");
        return Err(m);
    }
    Ok(())
}

// ---------------------------------------------------------------- listing

/// A title as the cache listing shows it: cut to what fits in 45 bytes and
/// marked with `...` when it takes more than 48.
pub open spec fn listed_title(t: Seq<char>) -> Seq<char> {
    if utf8_len(t) > 48 {
        t.take(fit_count(t, 45) as int) + "..."@
    } else {
        t
    }
}

/// The title column of the cache listing.
pub fn list_title(title: &str) -> (r: String)
    ensures
        r@ == listed_title(title@),
{
    let cs = str_chars(title);
    let fits = utf8_prefix(cs.as_slice(), 48);
    proof {
        lemma_fit_all(cs@, 48);
    }
    if fits.len() < cs.len() {
        let cut = utf8_prefix(cs.as_slice(), 45);
        let mut r = String::new();
        push_chars(&mut r, cut.as_slice());
        push_str_chars(&mut r, "...");
        r
    } else {
        title.to_owned()
    }
}

} // verus!
