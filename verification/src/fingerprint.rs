//! The digest of a request: the SHA-256 hash of a canonical encoding.
//!
//! The encoding writes every field of the request, in a fixed order. A
//! number is written as eight bytes, least significant first; a string as
//! the number of its UTF-8 bytes and then those bytes; a list as the number
//! of its items and then the items. Equal requests therefore have equal
//! encodings and equal digests.

use crate::digest::{sha256_of, Digest, DigestView};
use crate::request::{
    Bindings, ExecuteProcessRequest, ExecuteProcessRequestMetadata, MetadataView, Platform,
    RequestView, Timeout,
};
use vstd::bytes::{spec_u64_to_le_bytes, u64_to_le_bytes};
use vstd::prelude::*;
use vstd::utf8::encode_utf8;

verus! {

/// A number, as eight bytes.
pub open spec fn number_bytes(n: nat) -> Seq<u8> {
    spec_u64_to_le_bytes(n as u64)
}

/// A string: the number of its UTF-8 bytes, then the bytes.
pub open spec fn text_bytes(s: Seq<char>) -> Seq<u8> {
    number_bytes(encode_utf8(s).len()) + encode_utf8(s)
}

/// The strings of a list, one after the other.
pub open spec fn texts_joined(list: Seq<Seq<char>>) -> Seq<u8>
    decreases list.len(),
{
    if list.len() == 0 {
        Seq::empty()
    } else {
        texts_joined(list.drop_last()) + text_bytes(list.last())
    }
}

/// A list of strings: the number of strings, then the strings.
pub open spec fn texts_bytes(list: Seq<Seq<char>>) -> Seq<u8> {
    number_bytes(list.len()) + texts_joined(list)
}

/// The bindings of a list, one after the other, name before value.
pub open spec fn bindings_joined(list: Bindings) -> Seq<u8>
    decreases list.len(),
{
    if list.len() == 0 {
        Seq::empty()
    } else {
        bindings_joined(list.drop_last()) + text_bytes(list.last().0) + text_bytes(list.last().1)
    }
}

/// A list of bindings: the number of bindings, then the bindings.
pub open spec fn bindings_bytes(list: Bindings) -> Seq<u8> {
    number_bytes(list.len()) + bindings_joined(list)
}

/// A digest: its hash, then its length.
pub open spec fn digest_bytes(d: DigestView) -> Seq<u8> {
    d.fingerprint + number_bytes(d.size)
}

/// A string that may be missing: a zero, or a one and the string.
pub open spec fn optional_bytes(s: Option<Seq<char>>) -> Seq<u8> {
    match s {
        None => seq![0u8],
        Some(s) => seq![1u8] + text_bytes(s),
    }
}

/// The byte that stands for a platform.
pub open spec fn platform_byte(p: Platform) -> u8 {
    match p {
        Platform::Darwin => 1,
        Platform::Linux => 2,
        Platform::Unspecified => 0,
    }
}

/// A timeout: the seconds, then the nanoseconds.
pub open spec fn timeout_bytes(t: Timeout) -> Seq<u8> {
    number_bytes(t.secs as nat) + number_bytes(t.nanos as nat)
}

/// The byte that stands for a truth value.
pub open spec fn flag_byte(b: bool) -> u8 {
    if b {
        1
    } else {
        0
    }
}

/// The encoding of a request: its fields one after the other.
pub open spec fn request_bytes(r: RequestView) -> Seq<u8> {
    texts_bytes(r.argv) + (bindings_bytes(r.env) + (digest_bytes(r.input_files) + (texts_bytes(
        r.output_files,
    ) + (texts_bytes(r.output_directories) + (timeout_bytes(r.timeout) + (text_bytes(
        r.description,
    ) + (digest_bytes(r.local_only_files) + (optional_bytes(r.jdk_home) + seq![
        platform_byte(r.target_platform),
        flag_byte(r.is_nailgunnable),
    ]))))))))
}

/// What is hashed for the digest of a request: what is mixed into every
/// digest, then the request.
pub open spec fn digest_input(r: RequestView, m: MetadataView) -> Seq<u8> {
    optional_bytes(m.instance_name) + (optional_bytes(m.cache_key_gen_version) + (bindings_bytes(
        m.platform_properties,
    ) + request_bytes(r)))
}

/// The digest of a request under some metadata.
pub open spec fn request_digest(r: RequestView, m: MetadataView) -> DigestView {
    DigestView {
        fingerprint: sha256_of(digest_input(r, m)),
        size: digest_input(r, m).len(),
    }
}

fn put_number(out: &mut Vec<u8>, n: u64)
    ensures
        final(out)@ == old(out)@ + number_bytes(n as nat),
{
    let mut bytes = u64_to_le_bytes(n);
    out.append(&mut bytes);
}

fn put_text(out: &mut Vec<u8>, s: &str)
    ensures
        final(out)@ == old(out)@ + text_bytes(s@),
{
    let ghost before = out@;
    let mut bytes = s.as_bytes_vec();
    put_number(out, bytes.len() as u64);
    out.append(&mut bytes);
    assert(out@ =~= before + text_bytes(s@));
}

fn put_texts(out: &mut Vec<u8>, list: &Vec<String>)
    ensures
        final(out)@ == old(out)@ + texts_bytes(list.deep_view()),
{
    let ghost before = out@;
    let ghost model = list.deep_view();
    put_number(out, list.len() as u64);
    let mut i: usize = 0;
    while i < list.len()
        invariant
            i <= list.len(),
            model == list.deep_view(),
            out@ == before + number_bytes(model.len()) + texts_joined(model.take(i as int)),
        decreases list.len() - i,
    {
        let ghost so_far = out@;
        put_text(out, list[i].as_str());
        proof {
            assert(model.take(i + 1).drop_last() =~= model.take(i as int));
            assert(model.take(i + 1).last() == list[i as int]@);
            assert(out@ =~= before + number_bytes(model.len()) + texts_joined(model.take(i + 1)));
        }
        i = i + 1;
    }
    proof {
        assert(model.take(i as int) =~= model);
        assert(out@ =~= before + texts_bytes(model));
    }
}

fn put_bindings(out: &mut Vec<u8>, list: &Vec<(String, String)>)
    ensures
        final(out)@ == old(out)@ + bindings_bytes(list.deep_view()),
{
    let ghost before = out@;
    let ghost model = list.deep_view();
    put_number(out, list.len() as u64);
    let mut i: usize = 0;
    while i < list.len()
        invariant
            i <= list.len(),
            model == list.deep_view(),
            out@ == before + number_bytes(model.len()) + bindings_joined(model.take(i as int)),
        decreases list.len() - i,
    {
        put_text(out, list[i].0.as_str());
        put_text(out, list[i].1.as_str());
        proof {
            assert(model.take(i + 1).drop_last() =~= model.take(i as int));
            assert(model.take(i + 1).last() == list[i as int].deep_view());
            assert(out@ =~= before + number_bytes(model.len()) + bindings_joined(
                model.take(i + 1),
            ));
        }
        i = i + 1;
    }
    proof {
        assert(model.take(i as int) =~= model);
        assert(out@ =~= before + bindings_bytes(model));
    }
}

fn put_digest(out: &mut Vec<u8>, d: &Digest)
    ensures
        final(out)@ == old(out)@ + digest_bytes(d@),
{
    let ghost before = out@;
    let mut i: usize = 0;
    while i < 32
        invariant
            i <= 32,
            out@ == before + d.0@.take(i as int),
        decreases 32 - i,
    {
        out.push(d.0.0[i]);
        assert(out@ =~= before + d.0@.take(i + 1));
        i = i + 1;
    }
    assert(d.0@.take(32) =~= d.0@);
    put_number(out, d.1 as u64);
    assert(out@ =~= before + digest_bytes(d@));
}

fn put_optional(out: &mut Vec<u8>, s: &Option<String>)
    ensures
        final(out)@ == old(out)@ + optional_bytes(s.deep_view()),
{
    let ghost before = out@;
    match s {
        None => {
            out.push(0u8);
            assert(out@ =~= before + optional_bytes(s.deep_view()));
        },
        Some(text) => {
            out.push(1u8);
            put_text(out, text.as_str());
            assert(out@ =~= before + optional_bytes(s.deep_view()));
        },
    }
}

fn platform_code(p: Platform) -> (b: u8)
    ensures
        b == platform_byte(p),
{
    match p {
        Platform::Darwin => 1,
        Platform::Linux => 2,
        Platform::Unspecified => 0,
    }
}

/// Joining is associative.
pub proof fn lemma_regroup(a: Seq<u8>, b: Seq<u8>, c: Seq<u8>)
    ensures
        (a + b) + c == a + (b + c),
{
    assert((a + b) + c =~= a + (b + c));
}

/// Writes out what is hashed for the digest of `request` under `metadata`.
pub fn encode(request: &ExecuteProcessRequest, metadata: &ExecuteProcessRequestMetadata) -> (out:
    Vec<u8>)
    ensures
        out@ == digest_input(request@, metadata@),
{
    let ghost r = request@;
    let ghost m = metadata@;
    let ghost a1 = optional_bytes(m.instance_name);
    let ghost a2 = optional_bytes(m.cache_key_gen_version);
    let ghost a3 = bindings_bytes(m.platform_properties);
    let ghost a4 = texts_bytes(r.argv);
    let ghost a5 = bindings_bytes(r.env);
    let ghost a6 = digest_bytes(r.input_files);
    let ghost a7 = texts_bytes(r.output_files);
    let ghost a8 = texts_bytes(r.output_directories);
    let ghost a9 = timeout_bytes(r.timeout);
    let ghost a10 = text_bytes(r.description);
    let ghost a11 = digest_bytes(r.local_only_files);
    let ghost a12 = optional_bytes(r.jdk_home);
    let ghost end = seq![platform_byte(r.target_platform), flag_byte(r.is_nailgunnable)];
    let mut out: Vec<u8> = Vec::new();
    put_optional(&mut out, &metadata.instance_name);
    assert(out@ =~= a1);
    put_optional(&mut out, &metadata.cache_key_gen_version);
    put_bindings(&mut out, &metadata.platform_properties);
    let ghost q3 = out@;
    put_texts(&mut out, &request.argv);
    let ghost q4 = out@;
    put_bindings(&mut out, request.env.entries());
    let ghost q5 = out@;
    put_digest(&mut out, &request.input_files);
    let ghost q6 = out@;
    put_texts(&mut out, request.output_files.paths());
    let ghost q7 = out@;
    put_texts(&mut out, request.output_directories.paths());
    let ghost q8 = out@;
    put_number(&mut out, request.timeout.secs);
    put_number(&mut out, request.timeout.nanos as u64);
    assert(out@ == q8 + a9) by {
        lemma_regroup(
            q8,
            number_bytes(r.timeout.secs as nat),
            number_bytes(r.timeout.nanos as nat),
        );
    }
    let ghost q9 = out@;
    put_text(&mut out, request.description.as_str());
    let ghost q10 = out@;
    put_digest(
        &mut out,
        &request.unsafe_local_only_files_because_we_favor_speed_over_correctness_for_this_rule,
    );
    let ghost q11 = out@;
    put_optional(&mut out, &request.jdk_home);
    let ghost q12 = out@;
    out.push(platform_code(request.target_platform));
    out.push(if request.is_nailgunnable { 1u8 } else { 0u8 });
    proof {
        assert(out@ =~= q12 + end);
        lemma_regroup(q11, a12, end);
        lemma_regroup(q10, a11, a12 + end);
        lemma_regroup(q9, a10, a11 + (a12 + end));
        lemma_regroup(q8, a9, a10 + (a11 + (a12 + end)));
        lemma_regroup(q7, a8, a9 + (a10 + (a11 + (a12 + end))));
        lemma_regroup(q6, a7, a8 + (a9 + (a10 + (a11 + (a12 + end)))));
        lemma_regroup(q5, a6, a7 + (a8 + (a9 + (a10 + (a11 + (a12 + end))))));
        lemma_regroup(q4, a5, a6 + (a7 + (a8 + (a9 + (a10 + (a11 + (a12 + end)))))));
        lemma_regroup(q3, a4, a5 + (a6 + (a7 + (a8 + (a9 + (a10 + (a11 + (a12 + end))))))));
        assert(request_bytes(r) == a4 + (a5 + (a6 + (a7 + (a8 + (a9 + (a10 + (a11 + (a12
            + end)))))))));
        lemma_regroup(a1 + a2, a3, request_bytes(r));
        lemma_regroup(a1, a2, a3 + request_bytes(r));
    }
    out
}

/// The digest of `request` under `metadata`.
pub fn digest(request: &ExecuteProcessRequest, metadata: &ExecuteProcessRequestMetadata) -> (d:
    Digest)
    ensures
        d@ == request_digest(request@, metadata@),
{
    let bytes = encode(request, metadata);
    Digest::of_bytes(bytes.as_slice())
}

} // verus!
