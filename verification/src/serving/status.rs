//! The GPU memory figures of the system status report.
use vstd::prelude::*;
use vstd::utf8::{decode_utf8, valid_utf8};
use crate::text::{chars_of, parse_unsigned, parse_unsigned_chars, split_chars, split_on, trim, trim_chars};

verus! {

/// The system status report: store sizes and times, record counts, model
/// server state and GPU memory in MiB.
pub struct SystemStatusResponse {
    pub database_size_bytes: u64,
    pub database_modified_time: String,
    pub mmap_size_bytes: u64,
    pub mmap_modified_time: String,
    pub total_nodes: usize,
    pub total_clusters: usize,
    pub ollama_online: bool,
    pub ollama_model: String,
    pub vram_total_mb: Option<u32>,
    pub vram_used_mb: Option<u32>,
    pub vram_free_mb: Option<u32>,
}

/// The text that `String::from_utf8_lossy` makes of some bytes.
pub uninterp spec fn lossy_utf8(bytes: Seq<u8>) -> Seq<char>;

/// Decodes bytes with `String::from_utf8_lossy`, which replaces invalid
/// sequences with U+FFFD; valid UTF-8 decodes to exactly its characters.
#[verifier::external_body]
fn from_utf8_lossy(bytes: &[u8]) -> (r: String)
    ensures
        r@ == lossy_utf8(bytes@),
        valid_utf8(bytes@) ==> r@ == decode_utf8(bytes@),
{
    String::from_utf8_lossy(bytes).into_owned()
}

/// A field read as a `u32` (as `str::parse::<u32>`).
pub open spec fn u32_field(s: Seq<char>) -> Option<u32> {
    match parse_unsigned(s, 10, u32::MAX as nat) {
        Some(v) => Some(v as u32),
        None => None,
    }
}

/// The trimmed comma-separated fields of the trimmed text.
pub open spec fn vram_fields(s: Seq<char>) -> Seq<Seq<char>> {
    split_on(trim(s), ',').map_values(|p: Seq<char>| trim(p))
}

/// Total, used and free GPU memory read from one CSV line of
/// `nvidia-smi --query-gpu=memory.total,memory.used,memory.free`: each field
/// that parses as a `u32`, or nothing at all unless there are exactly three fields.
pub open spec fn vram_report(s: Seq<char>) -> (Option<u32>, Option<u32>, Option<u32>) {
    let f = vram_fields(s);
    if f.len() == 3 {
        (u32_field(f[0]), u32_field(f[1]), u32_field(f[2]))
    } else {
        (None, None, None)
    }
}

fn parse_u32_field(cs: &[char]) -> (r: Option<u32>)
    ensures
        r == u32_field(cs@),
{
    match parse_unsigned_chars(cs, 10, 0xffff_ffffu64) {
        Some(v) => Some(v as u32),
        None => None,
    }
}

/// Reads total, used and free GPU memory from the `nvidia-smi` CSV text.
pub fn parse_vram_csv(text: &str) -> (r: (Option<u32>, Option<u32>, Option<u32>))
    ensures
        r == vram_report(text@),
{
    let cs = chars_of(text);
    let t = trim_chars(cs.as_slice());
    let parts = split_chars(t.as_slice(), ',');
    if parts.len() != 3 {
        return (None, None, None);
    }
    let total = parse_u32_field(trim_chars(parts[0].as_slice()).as_slice());
    let used = parse_u32_field(trim_chars(parts[1].as_slice()).as_slice());
    let free = parse_u32_field(trim_chars(parts[2].as_slice()).as_slice());
    (total, used, free)
}

/// Reads total, used and free GPU memory from the raw standard output of
/// `nvidia-smi`, decoded as `String::from_utf8_lossy` does.
pub fn parse_gpu_vram_output(stdout: &[u8]) -> (r: (Option<u32>, Option<u32>, Option<u32>))
    ensures
        r == vram_report(lossy_utf8(stdout@)),
        valid_utf8(stdout@) ==> r == vram_report(decode_utf8(stdout@)),
{
    let text = from_utf8_lossy(stdout);
    parse_vram_csv(text.as_str())
}

} // verus!
