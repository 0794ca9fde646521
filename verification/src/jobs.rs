//! The server's table of jobs: what each job is, and the moves it may make.

use vstd::prelude::*;
use vstd::std_specs::iter::IteratorSpec;
use crate::checkpoint::{ends_with, ends_with_str};
use crate::config::path_exists;
use crate::paths::{has_mp4_extension, path_extension};
use crate::text::push_str_chars;
use crate::types::JobStatus;

verus! {

/// A request refused or failed, by the HTTP answer it gets.
#[derive(Debug, Clone)]
pub enum ApiError {
    NotFound(String),
    BadRequest(String),
    Conflict(String),
    Internal(String),
}

/// The body of an error answer.
#[derive(Debug, Clone)]
pub struct ErrorResponse {
    pub error: String,
}

/// One job of the server.
#[derive(Debug, Clone)]
pub struct JobEntry {
    pub id: u128,
    pub source: String,
    pub status: JobStatus,
    pub error: Option<String>,
}

/// The text of a job id: the UUID it stands for, hyphenated.
pub uninterp spec fn uuid_text(id: u128) -> Seq<char>;

/// The UUID a text names, if it names one.
pub uninterp spec fn uuid_of_text(s: Seq<char>) -> Option<u128>;

/// Formats a job id with `uuid::Uuid`'s `Display`. Trusted: the text is taken
/// to be `uuid_text` of the id, and `FromStr` reads it back as the same id
/// (the crate's parser accepts every format it prints).
#[verifier::external_body]
pub(crate) fn job_id_text(id: u128) -> (r: String)
    ensures
        r@ == uuid_text(id),
        uuid_of_text(r@) == Some(id),
{
    uuid::Uuid::from_u128(id).to_string()
}

/// Reads a job id with `uuid::Uuid`'s `FromStr`. Trusted: the outcome is
/// taken to be `uuid_of_text` of the text.
#[verifier::external_body]
pub(crate) fn parse_job_id(s: &str) -> (r: Option<u128>)
    ensures
        r == uuid_of_text(s@),
{
    match s.parse::<uuid::Uuid>() {
        Ok(u) => Some(u.as_u128()),
        Err(_) => None,
    }
}

/// The text a job id is shown as; a request naming that text names the
/// same job.
pub fn format_job_id(id: u128) -> (r: String)
    ensures
        r@ == uuid_text(id),
        uuid_of_text(r@) == Some(id),
{
    job_id_text(id)
}

/// The name a status is reported under.
pub open spec fn status_name(s: JobStatus) -> Seq<char> {
    match s {
        JobStatus::Queued => "queued"@,
        JobStatus::Processing => "processing"@,
        JobStatus::Completed => "completed"@,
        JobStatus::Failed => "failed"@,
    }
}

/// The name of a status.
pub fn job_status_name(s: JobStatus) -> (r: &'static str)
    ensures
        r@ == status_name(s),
{
    match s {
        JobStatus::Queued => "queued",
        JobStatus::Processing => "processing",
        JobStatus::Completed => "completed",
        JobStatus::Failed => "failed",
    }
}

/// The error text a cancelled job carries.
pub open spec fn cancelled_text() -> Seq<char> {
    "cancelled by user"@
}

// ---------------------------------------------------------------- the table

/// The jobs of the server, by id.
pub struct JobTable {
    jobs: std::collections::HashMap<u128, JobEntry>,
}

impl View for JobTable {
    type V = Map<u128, JobEntry>;

    closed spec fn view(&self) -> Map<u128, JobEntry> {
        self.jobs@
    }
}

/// `e` with its status set to `status`.
pub open spec fn with_status(e: JobEntry, status: JobStatus) -> JobEntry {
    JobEntry { status, ..e }
}

/// A copy of an optional error text.
fn copy_error(e: &Option<String>) -> (r: Option<String>)
    ensures
        r == *e,
{
    match e {
        Some(m) => Some(m.clone()),
        None => None,
    }
}

impl JobTable {
    /// Every job is filed under its own id.
    #[verifier::type_invariant]
    spec fn well_formed(self) -> bool {
        forall|k: u128| #[trigger] self.jobs@.contains_key(k) ==> self.jobs@[k].id == k
    }

    /// An empty table.
    pub fn new() -> (t: Self)
        ensures
            t@ == Map::<u128, JobEntry>::empty(),
    {
        JobTable { jobs: std::collections::HashMap::new() }
    }

    /// The job `id`, if there is one.
    pub fn get(&self, id: u128) -> (r: Option<&JobEntry>)
        ensures
            r matches Some(e) ==> self@.contains_key(id) && *e == self@[id],
            r is None ==> !self@.contains_key(id),
    {
        broadcast use vstd::std_specs::hash::group_hash_axioms;
        self.jobs.get(&id)
    }

    /// Records a job; an entry with the same id is replaced.
    pub fn insert(&mut self, e: JobEntry)
        ensures
            final(self)@ == old(self)@.insert(e.id, e),
    {
        broadcast use vstd::std_specs::hash::group_hash_axioms;
        proof {
            use_type_invariant(&*self);
        }
        let mut m: std::collections::HashMap<u128, JobEntry> = std::collections::HashMap::new();
        std::mem::swap(&mut m, &mut self.jobs);
        m.insert(e.id, e);
        self.jobs = m;
    }

    /// Sets the status of job `id`; nothing happens when there is no such job.
    pub fn set_status(&mut self, id: u128, status: JobStatus)
        ensures
            old(self)@.contains_key(id) ==> final(self)@ == old(self)@.insert(
                id,
                with_status(old(self)@[id], status),
            ),
            !old(self)@.contains_key(id) ==> final(self)@ == old(self)@,
    {
        proof {
            use_type_invariant(&*self);
        }
        let e = match self.get(id) {
            Some(old_e) => JobEntry {
                id: old_e.id,
                source: old_e.source.clone(),
                status,
                error: copy_error(&old_e.error),
            },
            None => {
                return;
            },
        };
        self.insert(e);
    }
}

/// `new` is `old` cancelled: failed, with the cancellation as its error.
pub open spec fn cancelled_from(new: JobEntry, old: JobEntry) -> bool {
    &&& new.id == old.id
    &&& new.source == old.source
    &&& new.status == JobStatus::Failed
    &&& new.error matches Some(m) && m@ == cancelled_text()
}

/// The queued jobs of a table.
pub open spec fn queued_ids(m: Map<u128, JobEntry>) -> Set<u128> {
    Set::new(|id: u128| m.contains_key(id) && m[id].status == JobStatus::Queued)
}

/// The queued jobs among the ids `ks`.
pub open spec fn queued_among(m: Map<u128, JobEntry>, ks: Seq<u128>) -> Set<u128> {
    Set::new(|id: u128| ks.contains(id) && m.contains_key(id) && m[id].status == JobStatus::Queued)
}

/// The error a request for an unknown job gets.
pub open spec fn not_found_text(id: u128) -> Seq<char> {
    "job not found: "@ + uuid_text(id)
}

/// The error a request naming no valid job id gets.
pub open spec fn invalid_id_text(id: Seq<char>) -> Seq<char> {
    "invalid job ID: "@ + id
}

/// Why a cancellation is refused: the job is running or finished.
pub open spec fn cancel_refusal(status: JobStatus) -> Option<Seq<char>> {
    match status {
        JobStatus::Queued => None,
        JobStatus::Processing => Some("cannot cancel a job that is currently processing"@),
        _ => Some("job already "@ + status_name(status)),
    }
}

/// Why a request for a known job's result is refused.
pub open spec fn result_refusal(status: JobStatus) -> Option<Seq<char>> {
    match status {
        JobStatus::Completed => None,
        JobStatus::Failed => Some("job failed"@),
        _ => Some("job is not completed (status: "@ + status_name(status) + ")"@),
    }
}

/// The id a request names, or the error it gets.
pub fn request_job_id(id: &str) -> (r: Result<u128, ApiError>)
    ensures
        r matches Ok(v) ==> uuid_of_text(id@) == Some(v),
        r matches Err(e) ==> uuid_of_text(id@) is None && (e matches ApiError::BadRequest(m)
            && m@ == invalid_id_text(id@)),
        r is Ok <==> uuid_of_text(id@) is Some,
{
    match parse_job_id(id) {
        Some(v) => Ok(v),
        None => {
            let mut m = String::new();
            push_str_chars(&mut m, "invalid job ID: ");
            push_str_chars(&mut m, id);
            Err(ApiError::BadRequest(m))
        },
    }
}

fn not_found(id: u128) -> (e: ApiError)
    ensures
        e matches ApiError::NotFound(m) && m@ == not_found_text(id),
{
    let mut m = String::new();
    push_str_chars(&mut m, "job not found: ");
    let t = job_id_text(id);
    push_str_chars(&mut m, t.as_str());
    ApiError::NotFound(m)
}

/// Why a result request for a job in `status` is refused, if it is.
pub fn result_check(status: JobStatus) -> (r: Result<(), ApiError>)
    ensures
        r is Ok <==> result_refusal(status) is None,
        r matches Err(e) ==> (e matches ApiError::Conflict(m) && result_refusal(status) == Some(
            m@,
        )),
{
    match status {
        JobStatus::Completed => Ok(()),
        JobStatus::Failed => Err(ApiError::Conflict("job failed".to_owned())),
        _ => {
            let mut m = String::new();
            push_str_chars(&mut m, "job is not completed (status: ");
            push_str_chars(&mut m, job_status_name(status));
            push_str_chars(&mut m, ")");
            Err(ApiError::Conflict(m))
        },
    }
}

impl JobTable {
    /// Fails job `id` with `error`; nothing happens when there is no such job.
    pub fn fail(&mut self, id: u128, error: String)
        ensures
            old(self)@.contains_key(id) ==> final(self)@ == old(self)@.insert(
                id,
                JobEntry { status: JobStatus::Failed, error: Some(error), ..old(self)@[id] },
            ),
            !old(self)@.contains_key(id) ==> final(self)@ == old(self)@,
    {
        proof {
            use_type_invariant(&*self);
        }
        let e = match self.get(id) {
            Some(old_e) => JobEntry {
                id: old_e.id,
                source: old_e.source.clone(),
                status: JobStatus::Failed,
                error: Some(error),
            },
            None => {
                return;
            },
        };
        self.insert(e);
    }

    /// Renames the source of job `id`; nothing happens when there is no such
    /// job.
    pub fn set_source(&mut self, id: u128, source: String)
        ensures
            old(self)@.contains_key(id) ==> final(self)@ == old(self)@.insert(
                id,
                JobEntry { source, ..old(self)@[id] },
            ),
            !old(self)@.contains_key(id) ==> final(self)@ == old(self)@,
    {
        proof {
            use_type_invariant(&*self);
        }
        let e = match self.get(id) {
            Some(old_e) => JobEntry {
                id: old_e.id,
                source,
                status: old_e.status,
                error: copy_error(&old_e.error),
            },
            None => {
                return;
            },
        };
        self.insert(e);
    }

    /// The job a request names.
    pub fn lookup(&self, id: &str) -> (r: Result<&JobEntry, ApiError>)
        ensures
            r matches Ok(e) ==> uuid_of_text(id@) matches Some(v) && self@.contains_key(v) && *e
                == self@[v],
            r matches Err(err) ==> match uuid_of_text(id@) {
                None => err matches ApiError::BadRequest(m) && m@ == invalid_id_text(id@),
                Some(v) => !self@.contains_key(v) && (err matches ApiError::NotFound(m) && m@
                    == not_found_text(v)),
            },
    {
        let v = request_job_id(id)?;
        match self.get(v) {
            Some(e) => Ok(e),
            None => Err(not_found(v)),
        }
    }

    /// Cancels the job a request names, which must still be queued; the
    /// answer names the cancelled job.
    pub fn cancel(&mut self, id: &str) -> (r: Result<String, ApiError>)
        ensures
            match uuid_of_text(id@) {
                None => r matches Err(ApiError::BadRequest(m)) && m@ == invalid_id_text(id@)
                    && final(self)@ == old(self)@,
                Some(v) => if !old(self)@.contains_key(v) {
                    r matches Err(ApiError::NotFound(m)) && m@ == not_found_text(v) && final(self)@
                        == old(self)@
                } else {
                    match cancel_refusal(old(self)@[v].status) {
                        None => r matches Ok(t) && t@ == uuid_text(v) && final(self)@.dom()
                            == old(self)@.dom() && cancelled_from(final(self)@[v], old(self)@[v])
                            && forall|k: u128|
                            #![trigger final(self)@[k]]
                            old(self)@.contains_key(k) && k != v ==> final(self)@[k] == old(
                                self,
                            )@[k],
                        Some(why) => r matches Err(ApiError::Conflict(m)) && m@ == why
                            && final(self)@ == old(self)@,
                    }
                },
            },
    {
        let v = match request_job_id(id) {
            Ok(v) => v,
            Err(e) => {
                return Err(e);
            },
        };
        proof {
            use_type_invariant(&*self);
        }
        let e = match self.get(v) {
            None => {
                return Err(not_found(v));
            },
            Some(old_e) => match old_e.status {
                JobStatus::Queued => JobEntry {
                    id: old_e.id,
                    source: old_e.source.clone(),
                    status: JobStatus::Failed,
                    error: Some("cancelled by user".to_owned()),
                },
                JobStatus::Processing => {
                    return Err(
                        ApiError::Conflict(
                            "cannot cancel a job that is currently processing".to_owned(),
                        ),
                    );
                },
                status => {
                    let mut m = String::new();
                    push_str_chars(&mut m, "job already ");
                    push_str_chars(&mut m, job_status_name(status));
                    return Err(ApiError::Conflict(m));
                },
            },
        };
        self.insert(e);
        Ok(job_id_text(v))
    }

    /// Cancels every queued job and says how many there were; running and
    /// finished jobs are left as they are, and afterwards no job is queued.
    pub fn cancel_all(&mut self) -> (n: u64)
        ensures
            final(self)@.dom() == old(self)@.dom(),
            forall|k: u128|
                #![trigger final(self)@[k]]
                old(self)@.contains_key(k) ==> if old(self)@[k].status == JobStatus::Queued {
                    cancelled_from(final(self)@[k], old(self)@[k])
                } else {
                    final(self)@[k] == old(self)@[k]
                },
            forall|k: u128|
                #![trigger final(self)@[k]]
                final(self)@.contains_key(k) ==> final(self)@[k].status != JobStatus::Queued,
            queued_ids(old(self)@).finite(),
            n == queued_ids(old(self)@).len(),
    {
        broadcast use vstd::std_specs::hash::group_hash_axioms;
        proof {
            use_type_invariant(&*self);
        }
        let ghost s = self@;
        let ids = ids_of(&self.jobs);
        let mut n: u64 = 0;
        let mut i: usize = 0;
        assert(queued_among(s, ids@.take(0)) =~= Set::<u128>::empty());
        while i < ids.len()
            invariant
                i <= ids@.len(),
                ids@.to_set() == s.dom(),
                ids@.no_duplicates(),
                self@.dom() == s.dom(),
                forall|k: u128| #[trigger] self@.contains_key(k) ==> self@[k].id == k,
                forall|k: u128|
                    #![trigger self@[k]]
                    s.contains_key(k) ==> if ids@.take(i as int).contains(k) && s[k].status
                        == JobStatus::Queued {
                        cancelled_from(self@[k], s[k])
                    } else {
                        self@[k] == s[k]
                    },
                queued_among(s, ids@.take(i as int)).finite(),
                n == queued_among(s, ids@.take(i as int)).len(),
                n <= i,
            decreases ids@.len() - i,
        {
            let k = ids[i];
            assert(ids@.to_set().contains(k));
            assert(!ids@.take(i as int).contains(k)) by {
                if ids@.take(i as int).contains(k) {
                    let j = choose|j: int| 0 <= j < i && #[trigger] ids@.take(i as int)[j] == k;
                    assert(ids@[j] == ids@[i as int]);
                }
            }
            assert(ids@.take(i + 1) == ids@.take(i as int).push(k));
            assert forall|q: u128| #[trigger] ids@.take(i + 1).contains(q) <==> (ids@.take(
                i as int,
            ).contains(q) || q == k) by {
                if ids@.take(i + 1).contains(q) {
                    let j = choose|j: int| 0 <= j < i + 1 && #[trigger] ids@.take(i + 1)[j] == q;
                    if j < i {
                        assert(ids@.take(i as int)[j] == q);
                    }
                }
                if ids@.take(i as int).contains(q) {
                    let j = choose|j: int| 0 <= j < i && #[trigger] ids@.take(i as int)[j] == q;
                    assert(ids@.take(i + 1)[j] == q);
                }
                if q == k {
                    assert(ids@.take(i + 1)[i as int] == q);
                }
            }
            let queued = match self.jobs.get(&k) {
                Some(e) => e.status == JobStatus::Queued,
                None => false,
            };
            if queued {
                let e = match self.jobs.get(&k) {
                    Some(old_e) => JobEntry {
                        id: old_e.id,
                        source: old_e.source.clone(),
                        status: JobStatus::Failed,
                        error: Some("cancelled by user".to_owned()),
                    },
                    None => {
                        return n;
                    },
                };
                self.insert(e);
                assert(queued_among(s, ids@.take(i + 1)) =~= queued_among(s, ids@.take(i as int)).insert(k));
                n = n + 1;
            } else {
                assert(queued_among(s, ids@.take(i + 1)) =~= queued_among(s, ids@.take(i as int)));
            }
            i = i + 1;
        }
        proof {
            assert(ids@.take(ids@.len() as int) == ids@);
            assert forall|q: u128| ids@.contains(q) <==> s.contains_key(q) by {
                assert(ids@.to_set().contains(q) == ids@.contains(q));
            }
            assert(queued_among(s, ids@) =~= queued_ids(s));
        }
        n
    }
}

impl JobEntry {
    /// A new job waiting to run.
    pub fn queued(id: u128, source: String) -> (e: Self)
        ensures
            e.id == id,
            e.source == source,
            e.status == JobStatus::Queued,
            e.error is None,
    {
        JobEntry { id, source, status: JobStatus::Queued, error: None }
    }
}

/// Why a local file cannot become a job: an empty name, a file that does not
/// exist, or one that is not an mp4 video.
pub open spec fn source_refusal(source: Seq<char>, exists_on_disk: bool) -> Option<Seq<char>> {
    if source.len() == 0 {
        Some("source must not be empty"@)
    } else if !exists_on_disk {
        Some("file not found: "@ + source)
    } else if path_extension(source) != Some("mp4"@) {
        Some("only mp4 files are supported"@)
    } else {
        None
    }
}

/// Checks a local file named by a job request. Whether the file exists is
/// read from disk, so the outcome is stated for whichever way that went.
pub fn check_job_source(source: &str) -> (r: Result<(), ApiError>)
    ensures
        exists|on_disk: bool|
            #![trigger source_refusal(source@, on_disk)]
            match source_refusal(source@, on_disk) {
                None => r is Ok,
                Some(why) => r matches Err(ApiError::BadRequest(m)) && m@ == why,
            },
        source@.len() == 0 ==> (r matches Err(ApiError::BadRequest(m)) && m@
            == "source must not be empty"@),
{
    if source.is_empty() {
        return Err(ApiError::BadRequest("source must not be empty".to_owned()));
    }
    let on_disk = path_exists(source);
    if !on_disk {
        let mut m = String::new();
        push_str_chars(&mut m, "file not found: ");
        push_str_chars(&mut m, source);
        return Err(ApiError::BadRequest(m));
    }
    if !has_mp4_extension(source) {
        assert(source_refusal(source@, on_disk) == Some("only mp4 files are supported"@));
        return Err(ApiError::BadRequest("only mp4 files are supported".to_owned()));
    }
    assert(source_refusal(source@, on_disk) is None);
    Ok(())
}

/// The name an uploaded file is recorded under: the name the client gave,
/// `upload.mp4` when it gave none; it must end in `.mp4`.
pub fn upload_file_name(given: Option<&str>) -> (r: Result<String, ApiError>)
    ensures
        ({
            let n = match given {
                Some(g) => g@,
                None => "upload.mp4"@,
            };
            &&& ends_with(n, ".mp4"@) ==> (r matches Ok(s) && s@ == n)
            &&& !ends_with(n, ".mp4"@) ==> (r matches Err(ApiError::BadRequest(m)) && m@
                == "only mp4 files are supported"@)
        }),
{
    let name = match given {
        Some(g) => g,
        None => "upload.mp4",
    };
    if !ends_with_str(name, ".mp4") {
        return Err(ApiError::BadRequest("only mp4 files are supported".to_owned()));
    }
    Ok(name.to_owned())
}

/// Checks the URL of a download job.
pub fn check_job_url(url: &str) -> (r: Result<(), ApiError>)
    ensures
        r is Ok <==> url@.len() > 0,
        r matches Err(e) ==> (e matches ApiError::BadRequest(m) && m@ == "url must not be empty"@),
{
    if url.is_empty() {
        return Err(ApiError::BadRequest("url must not be empty".to_owned()));
    }
    Ok(())
}

/// The server's overall health: `ok` when every dependency answered,
/// `degraded` otherwise.
pub fn overall_status(ffmpeg_ok: bool, ollama_ok: bool, ytdlp_ok: bool) -> (r: &'static str)
    ensures
        ffmpeg_ok && ollama_ok && ytdlp_ok ==> r@ == "ok"@,
        !(ffmpeg_ok && ollama_ok && ytdlp_ok) ==> r@ == "degraded"@,
{
    if ffmpeg_ok && ollama_ok && ytdlp_ok {
        "ok"
    } else {
        "degraded"
    }
}

} // verus!

verus! {

fn ids_of(m: &std::collections::HashMap<u128, JobEntry>) -> (ks: Vec<u128>)
    ensures
        ks@.to_set() == m@.dom(),
        ks@.no_duplicates(),
{
    broadcast use vstd::std_specs::hash::group_hash_axioms;
    let ghost all = vstd::std_specs::hash::spec_keys_iter(m).remaining().unref();
    let mut ks: Vec<u128> = Vec::new();
    for k in it: m.keys()
        invariant
            it.seq() == vstd::std_specs::hash::spec_keys_iter(m).remaining(),
            all == it.seq().unref(),
            ks@ == all.take(it.index()),
    {
        ks.push(*k);
        assert(all.take(it.index() + 1) == all.take(it.index()).push(*k));
    }
    assert(all.take(all.len() as int) == all);
    ks
}

} // verus!
