//! The encoding of a request can be read in one way only.
//!
//! Every field is written so that a reader knows where it ends: a number
//! has eight bytes, a hash thirty-two, and a string or a list says how long
//! it is before it begins. So two requests with the same encoding are the
//! same request, and requests that differ can only share a digest where
//! SHA-256 itself collides.

use crate::digest::DigestView;
use crate::fingerprint::{
    bindings_bytes, bindings_joined, digest_bytes, digest_input, flag_byte, lemma_regroup,
    number_bytes,
    optional_bytes, platform_byte, request_bytes, text_bytes, texts_bytes, texts_joined,
    timeout_bytes,
};
use crate::request::{Bindings, MetadataView, RequestView, Timeout};
use vstd::bytes::{lemma_auto_spec_u64_to_from_le_bytes, spec_u64_from_le_bytes};
use vstd::prelude::*;
use vstd::utf8::{encode_utf8, encode_utf8_decode_utf8};

verus! {

/// The UTF-8 encoding of the string is short enough for its length to be
/// written down.
pub open spec fn text_fits(s: Seq<char>) -> bool {
    encode_utf8(s).len() <= u64::MAX
}

/// The list and each of its strings are short enough.
pub open spec fn texts_fit(list: Seq<Seq<char>>) -> bool {
    &&& list.len() <= u64::MAX
    &&& forall|i: int| 0 <= i < list.len() ==> text_fits(#[trigger] list[i])
}

/// The list and each name and value in it are short enough.
pub open spec fn bindings_fit(list: Bindings) -> bool {
    &&& list.len() <= u64::MAX
    &&& forall|i: int|
        0 <= i < list.len() ==> text_fits((#[trigger] list[i]).0) && text_fits(list[i].1)
}

/// The hash has thirty-two bytes and the length can be written down.
pub open spec fn digest_fits(d: DigestView) -> bool {
    d.fingerprint.len() == 32 && d.size <= u64::MAX
}

/// The string, if there is one, is short enough.
pub open spec fn optional_fits(s: Option<Seq<char>>) -> bool {
    s is Some ==> text_fits(s->0)
}

/// Everything in the request is of a size that can be held in memory.
pub open spec fn request_fits(r: RequestView) -> bool {
    &&& texts_fit(r.argv)
    &&& bindings_fit(r.env)
    &&& digest_fits(r.input_files)
    &&& texts_fit(r.output_files)
    &&& texts_fit(r.output_directories)
    &&& text_fits(r.description)
    &&& digest_fits(r.local_only_files)
    &&& optional_fits(r.jdk_home)
}

/// Everything in the metadata is of a size that can be held in memory.
pub open spec fn metadata_fits(m: MetadataView) -> bool {
    &&& optional_fits(m.instance_name)
    &&& optional_fits(m.cache_key_gen_version)
    &&& bindings_fit(m.platform_properties)
}

proof fn lemma_cut(a: Seq<u8>, r: Seq<u8>, b: Seq<u8>, r2: Seq<u8>)
    requires
        a + r == b + r2,
        a.len() == b.len(),
    ensures
        a == b,
        r == r2,
{
    assert(a =~= (a + r).take(a.len() as int));
    assert(b =~= (b + r2).take(b.len() as int));
    assert(r =~= (a + r).skip(a.len() as int));
    assert(r2 =~= (b + r2).skip(b.len() as int));
}

proof fn lemma_number_first(x: nat, r: Seq<u8>, y: nat, r2: Seq<u8>)
    requires
        x <= u64::MAX,
        y <= u64::MAX,
        number_bytes(x) + r == number_bytes(y) + r2,
    ensures
        x == y,
        r == r2,
{
    lemma_auto_spec_u64_to_from_le_bytes();
    lemma_cut(number_bytes(x), r, number_bytes(y), r2);
    assert(spec_u64_from_le_bytes(number_bytes(x)) == x as u64);
    assert(spec_u64_from_le_bytes(number_bytes(y)) == y as u64);
}

proof fn lemma_text_first(s: Seq<char>, r: Seq<u8>, t: Seq<char>, r2: Seq<u8>)
    requires
        text_fits(s),
        text_fits(t),
        text_bytes(s) + r == text_bytes(t) + r2,
    ensures
        s == t,
        r == r2,
{
    let es = encode_utf8(s);
    let et = encode_utf8(t);
    lemma_regroup(number_bytes(es.len()), es, r);
    lemma_regroup(number_bytes(et.len()), et, r2);
    lemma_number_first(es.len(), es + r, et.len(), et + r2);
    lemma_cut(es, r, et, r2);
    encode_utf8_decode_utf8(s);
    encode_utf8_decode_utf8(t);
}

proof fn lemma_texts_joined_front(list: Seq<Seq<char>>)
    requires
        list.len() > 0,
    ensures
        texts_joined(list) == text_bytes(list[0]) + texts_joined(list.drop_first()),
    decreases list.len(),
{
    if list.len() == 1 {
        assert(list.drop_last() =~= Seq::<Seq<char>>::empty());
        assert(list.drop_first() =~= Seq::<Seq<char>>::empty());
        assert(texts_joined(list) =~= text_bytes(list[0]) + texts_joined(list.drop_first()));
    } else {
        let init = list.drop_last();
        lemma_texts_joined_front(init);
        assert(init.drop_first() =~= list.drop_first().drop_last());
        assert(list.drop_first().last() == list.last());
        lemma_regroup(text_bytes(list[0]), texts_joined(init.drop_first()), text_bytes(list.last()));
    }
}

proof fn lemma_texts_joined_first(a: Seq<Seq<char>>, r: Seq<u8>, b: Seq<Seq<char>>, r2: Seq<u8>)
    requires
        a.len() == b.len(),
        texts_fit(a),
        texts_fit(b),
        texts_joined(a) + r == texts_joined(b) + r2,
    ensures
        a == b,
        r == r2,
    decreases a.len(),
{
    if a.len() == 0 {
        assert(texts_joined(a) + r =~= r);
        assert(texts_joined(b) + r2 =~= r2);
        assert(a =~= b);
    } else {
        lemma_texts_joined_front(a);
        lemma_texts_joined_front(b);
        let a1 = a.drop_first();
        let b1 = b.drop_first();
        lemma_regroup(text_bytes(a[0]), texts_joined(a1), r);
        lemma_regroup(text_bytes(b[0]), texts_joined(b1), r2);
        lemma_text_first(a[0], texts_joined(a1) + r, b[0], texts_joined(b1) + r2);
        assert forall|i: int| 0 <= i < a1.len() implies text_fits(#[trigger] a1[i]) by {
            assert(a1[i] == a[i + 1]);
        }
        assert forall|i: int| 0 <= i < b1.len() implies text_fits(#[trigger] b1[i]) by {
            assert(b1[i] == b[i + 1]);
        }
        lemma_texts_joined_first(a1, r, b1, r2);
        assert(a =~= seq![a[0]] + a1);
        assert(b =~= seq![b[0]] + b1);
    }
}

proof fn lemma_texts_first(a: Seq<Seq<char>>, r: Seq<u8>, b: Seq<Seq<char>>, r2: Seq<u8>)
    requires
        texts_fit(a),
        texts_fit(b),
        texts_bytes(a) + r == texts_bytes(b) + r2,
    ensures
        a == b,
        r == r2,
{
    lemma_regroup(number_bytes(a.len()), texts_joined(a), r);
    lemma_regroup(number_bytes(b.len()), texts_joined(b), r2);
    lemma_number_first(a.len(), texts_joined(a) + r, b.len(), texts_joined(b) + r2);
    lemma_texts_joined_first(a, r, b, r2);
}

proof fn lemma_bindings_joined_front(list: Bindings)
    requires
        list.len() > 0,
    ensures
        bindings_joined(list) == text_bytes(list[0].0) + (text_bytes(list[0].1) + bindings_joined(
            list.drop_first(),
        )),
    decreases list.len(),
{
    if list.len() == 1 {
        assert(list.drop_last() =~= Seq::<(Seq<char>, Seq<char>)>::empty());
        assert(list.drop_first() =~= Seq::<(Seq<char>, Seq<char>)>::empty());
        assert(bindings_joined(list) =~= text_bytes(list[0].0) + (text_bytes(list[0].1)
            + bindings_joined(list.drop_first())));
    } else {
        let init = list.drop_last();
        lemma_bindings_joined_front(init);
        assert(init.drop_first() =~= list.drop_first().drop_last());
        assert(list.drop_first().last() == list.last());
        let k = text_bytes(list[0].0);
        let v = text_bytes(list[0].1);
        let mid = bindings_joined(init.drop_first());
        let lk = text_bytes(list.last().0);
        let lv = text_bytes(list.last().1);
        assert(((k + (v + mid)) + lk) + lv =~= k + (v + ((mid + lk) + lv)));
    }
}

proof fn lemma_bindings_joined_first(a: Bindings, r: Seq<u8>, b: Bindings, r2: Seq<u8>)
    requires
        a.len() == b.len(),
        bindings_fit(a),
        bindings_fit(b),
        bindings_joined(a) + r == bindings_joined(b) + r2,
    ensures
        a == b,
        r == r2,
    decreases a.len(),
{
    if a.len() == 0 {
        assert(bindings_joined(a) + r =~= r);
        assert(bindings_joined(b) + r2 =~= r2);
        assert(a =~= b);
    } else {
        lemma_bindings_joined_front(a);
        lemma_bindings_joined_front(b);
        let a1 = a.drop_first();
        let b1 = b.drop_first();
        let ra = text_bytes(a[0].1) + (bindings_joined(a1) + r);
        let rb = text_bytes(b[0].1) + (bindings_joined(b1) + r2);
        assert((text_bytes(a[0].0) + (text_bytes(a[0].1) + bindings_joined(a1))) + r
            =~= text_bytes(a[0].0) + ra);
        assert((text_bytes(b[0].0) + (text_bytes(b[0].1) + bindings_joined(b1))) + r2
            =~= text_bytes(b[0].0) + rb);
        lemma_text_first(a[0].0, ra, b[0].0, rb);
        lemma_text_first(a[0].1, bindings_joined(a1) + r, b[0].1, bindings_joined(b1) + r2);
        assert forall|i: int| 0 <= i < a1.len() implies text_fits((#[trigger] a1[i]).0)
            && text_fits(a1[i].1) by {
            assert(a1[i] == a[i + 1]);
        }
        assert forall|i: int| 0 <= i < b1.len() implies text_fits((#[trigger] b1[i]).0)
            && text_fits(b1[i].1) by {
            assert(b1[i] == b[i + 1]);
        }
        lemma_bindings_joined_first(a1, r, b1, r2);
        assert(a[0] == b[0]);
        assert(a =~= seq![a[0]] + a1);
        assert(b =~= seq![b[0]] + b1);
    }
}

proof fn lemma_bindings_first(a: Bindings, r: Seq<u8>, b: Bindings, r2: Seq<u8>)
    requires
        bindings_fit(a),
        bindings_fit(b),
        bindings_bytes(a) + r == bindings_bytes(b) + r2,
    ensures
        a == b,
        r == r2,
{
    lemma_regroup(number_bytes(a.len()), bindings_joined(a), r);
    lemma_regroup(number_bytes(b.len()), bindings_joined(b), r2);
    lemma_number_first(a.len(), bindings_joined(a) + r, b.len(), bindings_joined(b) + r2);
    lemma_bindings_joined_first(a, r, b, r2);
}

proof fn lemma_digest_first(d: DigestView, r: Seq<u8>, e: DigestView, r2: Seq<u8>)
    requires
        digest_fits(d),
        digest_fits(e),
        digest_bytes(d) + r == digest_bytes(e) + r2,
    ensures
        d == e,
        r == r2,
{
    lemma_regroup(d.fingerprint, number_bytes(d.size), r);
    lemma_regroup(e.fingerprint, number_bytes(e.size), r2);
    lemma_cut(d.fingerprint, number_bytes(d.size) + r, e.fingerprint, number_bytes(e.size) + r2);
    lemma_number_first(d.size, r, e.size, r2);
}

proof fn lemma_optional_first(
    s: Option<Seq<char>>,
    r: Seq<u8>,
    t: Option<Seq<char>>,
    r2: Seq<u8>,
)
    requires
        optional_fits(s),
        optional_fits(t),
        optional_bytes(s) + r == optional_bytes(t) + r2,
    ensures
        s == t,
        r == r2,
{
    assert((optional_bytes(s) + r)[0] == optional_bytes(s)[0]);
    assert((optional_bytes(t) + r2)[0] == optional_bytes(t)[0]);
    match (s, t) {
        (Some(a), Some(b)) => {
            lemma_regroup(seq![1u8], text_bytes(a), r);
            lemma_regroup(seq![1u8], text_bytes(b), r2);
            lemma_cut(seq![1u8], text_bytes(a) + r, seq![1u8], text_bytes(b) + r2);
            lemma_text_first(a, r, b, r2);
        },
        (None, None) => {
            lemma_cut(seq![0u8], r, seq![0u8], r2);
        },
        _ => {
            assert(optional_bytes(s)[0] != optional_bytes(t)[0]);
        },
    }
}

proof fn lemma_timeout_first(t: Timeout, r: Seq<u8>, u: Timeout, r2: Seq<u8>)
    requires
        timeout_bytes(t) + r == timeout_bytes(u) + r2,
    ensures
        t == u,
        r == r2,
{
    lemma_regroup(number_bytes(t.secs as nat), number_bytes(t.nanos as nat), r);
    lemma_regroup(number_bytes(u.secs as nat), number_bytes(u.nanos as nat), r2);
    lemma_number_first(
        t.secs as nat,
        number_bytes(t.nanos as nat) + r,
        u.secs as nat,
        number_bytes(u.nanos as nat) + r2,
    );
    lemma_number_first(t.nanos as nat, r, u.nanos as nat, r2);
}

/// Two requests with the same encoding are the same request.
pub proof fn law_request_encoding_is_injective(a: RequestView, b: RequestView)
    requires
        request_fits(a),
        request_fits(b),
        request_bytes(a) == request_bytes(b),
    ensures
        a == b,
{
    let enda = seq![platform_byte(a.target_platform), flag_byte(a.is_nailgunnable)];
    let endb = seq![platform_byte(b.target_platform), flag_byte(b.is_nailgunnable)];
    let a9 = optional_bytes(a.jdk_home) + enda;
    let b9 = optional_bytes(b.jdk_home) + endb;
    let a8 = digest_bytes(a.local_only_files) + a9;
    let b8 = digest_bytes(b.local_only_files) + b9;
    let a7 = text_bytes(a.description) + a8;
    let b7 = text_bytes(b.description) + b8;
    let a6 = timeout_bytes(a.timeout) + a7;
    let b6 = timeout_bytes(b.timeout) + b7;
    let a5 = texts_bytes(a.output_directories) + a6;
    let b5 = texts_bytes(b.output_directories) + b6;
    let a4 = texts_bytes(a.output_files) + a5;
    let b4 = texts_bytes(b.output_files) + b5;
    let a3 = digest_bytes(a.input_files) + a4;
    let b3 = digest_bytes(b.input_files) + b4;
    let a2 = bindings_bytes(a.env) + a3;
    let b2 = bindings_bytes(b.env) + b3;
    assert(request_bytes(a) == texts_bytes(a.argv) + a2);
    assert(request_bytes(b) == texts_bytes(b.argv) + b2);
    lemma_texts_first(a.argv, a2, b.argv, b2);
    lemma_bindings_first(a.env, a3, b.env, b3);
    lemma_digest_first(a.input_files, a4, b.input_files, b4);
    lemma_texts_first(a.output_files, a5, b.output_files, b5);
    lemma_texts_first(a.output_directories, a6, b.output_directories, b6);
    lemma_timeout_first(a.timeout, a7, b.timeout, b7);
    lemma_text_first(a.description, a8, b.description, b8);
    lemma_digest_first(a.local_only_files, a9, b.local_only_files, b9);
    lemma_optional_first(a.jdk_home, enda, b.jdk_home, endb);
    assert(enda[0] == endb[0] && enda[1] == endb[1]);
}

/// What is hashed for a digest determines the request and the metadata:
/// where two requests, each under its metadata, are hashed from the same
/// bytes, the requests are the same and so are the metadata.
pub proof fn law_digest_input_is_injective(
    a: RequestView,
    m: MetadataView,
    b: RequestView,
    n: MetadataView,
)
    requires
        request_fits(a),
        request_fits(b),
        metadata_fits(m),
        metadata_fits(n),
        digest_input(a, m) == digest_input(b, n),
    ensures
        a == b,
        m == n,
{
    let m3 = bindings_bytes(m.platform_properties) + request_bytes(a);
    let n3 = bindings_bytes(n.platform_properties) + request_bytes(b);
    let m2 = optional_bytes(m.cache_key_gen_version) + m3;
    let n2 = optional_bytes(n.cache_key_gen_version) + n3;
    lemma_optional_first(m.instance_name, m2, n.instance_name, n2);
    lemma_optional_first(m.cache_key_gen_version, m3, n.cache_key_gen_version, n3);
    lemma_bindings_first(m.platform_properties, request_bytes(a), n.platform_properties, request_bytes(b));
    law_request_encoding_is_injective(a, b);
}

} // verus!
