//! Deterministic native primitives for repository search, symbol analysis,
//! source edits and bounded output handling.

pub mod digest;
pub mod edit;
pub mod engine;
pub mod language;
pub mod model;
pub mod ordering;
pub mod outline;
pub mod output;
pub mod pattern;
pub mod search;
pub mod symbols;
pub mod syntax;
pub mod tally;
pub mod text;
pub mod workspace;

use crate::model::CompressionResponse;
use crate::output::{compressed_output, family_name, family_of, raw_output, strings_view, summary, DEFAULT_TOKEN_BUDGET};
use crate::text::blen;
use crate::digest::sha256_hex_of;
use vstd::prelude::*;

verus! {

/// Compresses the output of a process to the default token budget.
pub fn compress_process_output(argv: &[String], stdout: &str, stderr: &str, returncode: i32) -> (r:
    CompressionResponse)
    ensures
        r.output@ == compressed_output(
            strings_view(argv@),
            stdout@,
            stderr@,
            returncode,
            DEFAULT_TOKEN_BUDGET as nat,
        ),
        r.family@ == family_name(family_of(strings_view(argv@))),
        r.changed == (r.output@ != raw_output(stdout@, stderr@)),
        r.raw_bytes == blen(raw_output(stdout@, stderr@)),
        r.output_bytes == blen(r.output@),
        r.omitted_lines == summary(
            strings_view(argv@),
            raw_output(stdout@, stderr@),
            returncode,
            DEFAULT_TOKEN_BUDGET as nat,
        ).1,
        r.raw_sha256@ == sha256_hex_of(vstd::utf8::encode_utf8(raw_output(stdout@, stderr@))),
{
    crate::output::compress(argv, stdout, stderr, returncode)
}

/// Compresses the output of a process to `token_budget` estimated tokens.
pub fn compress_process_output_with_budget(
    argv: &[String],
    stdout: &str,
    stderr: &str,
    returncode: i32,
    token_budget: usize,
) -> (r: CompressionResponse)
    ensures
        r.output@ == compressed_output(strings_view(argv@), stdout@, stderr@, returncode, token_budget as nat),
        r.family@ == family_name(family_of(strings_view(argv@))),
        r.changed == (r.output@ != raw_output(stdout@, stderr@)),
        r.raw_bytes == blen(raw_output(stdout@, stderr@)),
        r.output_bytes == blen(r.output@),
        r.omitted_lines == summary(
            strings_view(argv@),
            raw_output(stdout@, stderr@),
            returncode,
            token_budget as nat,
        ).1,
        r.raw_sha256@ == sha256_hex_of(vstd::utf8::encode_utf8(raw_output(stdout@, stderr@))),
{
    crate::output::compress_with_budget(argv, stdout, stderr, returncode, token_budget)
}

} // verus!
