use vstd::prelude::*;

verus! {

#[verifier::external_type_specification]
#[verifier::external_body]
pub struct ExJsonValue(serde_json::Value);

#[verifier::external_type_specification]
#[verifier::external_body]
pub struct ExJsonError(serde_json::Error);

/// Whether the bytes are one complete JSON document, with nothing but white
/// space around it.
pub uninterp spec fn is_json_document(b: Seq<u8>) -> bool;

/// Relies on `serde_json::from_slice` into a `serde_json::Value`: it succeeds
/// exactly on one JSON document, and fails on empty input (it reports an end
/// of input while parsing a value).
#[verifier::external_body]
fn parse_json(b: &[u8]) -> (r: Result<serde_json::Value, serde_json::Error>)
    ensures
        r is Ok == is_json_document(b@),
        b@.len() == 0 ==> r is Err,
{
    serde_json::from_slice(b)
}

/// What a finished run of the script left behind.
pub struct ExecutionResult {
    /// Whether the process exited successfully.
    pub success: bool,
    /// Its exit code, where it exited with one.
    pub code: Option<i32>,
    pub stdout: Vec<u8>,
    pub stderr: Vec<u8>,
}

/// Why no metadata came out of a probe.
pub enum ProbeError {
    /// The project tree could not be copied into the snapshot.
    Snapshot { detail: String },
    /// The shim module could not be written into the snapshot.
    ShimWrite { detail: String },
    /// The interpreter could not be started on the script.
    ProcessLaunch { detail: String },
    /// The script ran and failed; its error stream tells why.
    ScriptFailed { code: Option<i32>, stderr: Vec<u8> },
    /// The script succeeded, but its error stream held no single JSON
    /// document (empty where `setup` was never called).
    Decode { raw: Vec<u8> },
}

fn copy_bytes(b: &Vec<u8>) -> (r: Vec<u8>)
    ensures
        r@ == b@,
{
    let mut r: Vec<u8> = Vec::new();
    let n = b.len();
    let mut i: usize = 0;
    while i < n
        invariant
            n == b@.len(),
            0 <= i <= n,
            r@ =~= b@.take(i as int),
        decreases n - i,
    {
        r.push(b[i]);
        i = i + 1;
        assert(r@ =~= b@.take(i as int));
    }
    assert(b@.take(n as int) =~= b@);
    r
}

/// Turns a finished run into the metadata that the shim printed. A failed run
/// is reported as such, with its error stream, whatever that stream holds; a
/// successful one is decoded from its whole error stream.
pub fn decode_run(run: &ExecutionResult) -> (r: Result<serde_json::Value, ProbeError>)
    ensures
        !run.success ==> (r matches Err(ProbeError::ScriptFailed { code, stderr }) && code
            == run.code && stderr@ == run.stderr@),
        run.success && !is_json_document(run.stderr@) ==> (r matches Err(
            ProbeError::Decode { raw },
        ) && raw@ == run.stderr@),
        run.success && is_json_document(run.stderr@) ==> r is Ok,
        run.success && run.stderr@.len() == 0 ==> r is Err,
{
    if !run.success {
        return Err(ProbeError::ScriptFailed { code: run.code, stderr: copy_bytes(&run.stderr) });
    }
    match parse_json(run.stderr.as_slice()) {
        Ok(v) => Ok(v),
        Err(_) => Err(ProbeError::Decode { raw: copy_bytes(&run.stderr) }),
    }
}

} // verus!
