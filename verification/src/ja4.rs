//! JA4 client fingerprint: a fixed-layout ASCII summary of a ClientHello.

use vstd::prelude::*;
use vstd::relations::{sorted_by, total_ordering};
use vstd::seq_lib::lemma_sorted_unique;
use vstd::seq_lib::lemma_multiset_commutative;
use vstd::multiset::Multiset;

use crate::hello::{ClientHello, HelloModel};

verus! {

/// The ordering by which cipher suite and extension lists are sorted.
pub open spec fn u16_leq() -> spec_fn(u16, u16) -> bool {
    |a: u16, b: u16| a <= b
}

/// Extension types that stay in the fingerprint's extension hash:
/// everything except SNI (0x0000) and ALPN (0x0010).
pub open spec fn ext_kept() -> spec_fn(u16) -> bool {
    |e: u16| e != 0x0000 && e != 0x0010
}

pub proof fn lemma_u16_leq_total()
    ensures
        total_ordering(u16_leq()),
{
}

/// Lower-case hex digit for a nibble.
pub open spec fn spec_hex_digit(n: int) -> u8
    recommends
        0 <= n < 16,
{
    if n < 10 {
        (0x30 + n) as u8
    } else {
        (0x57 + n) as u8
    }
}

/// A lower-case hexadecimal digit character, as a byte.
pub open spec fn is_lower_hex(b: u8) -> bool {
    (0x30 <= b <= 0x39) || (0x61 <= b <= 0x66)
}

/// Four lower-case hex digits of a 16-bit value, most significant first.
pub open spec fn spec_hex4(v: u16) -> Seq<u8> {
    seq![
        spec_hex_digit(((v >> 12) & 0xf) as int),
        spec_hex_digit(((v >> 8) & 0xf) as int),
        spec_hex_digit(((v >> 4) & 0xf) as int),
        spec_hex_digit((v & 0xf) as int),
    ]
}

/// The 16-bit values as four-digit hex groups joined by commas.
pub open spec fn spec_hex_join(s: Seq<u16>) -> Seq<u8>
    decreases s.len(),
{
    if s.len() == 0 {
        Seq::empty()
    } else if s.len() == 1 {
        spec_hex4(s[0])
    } else {
        spec_hex4(s[0]) + seq![0x2cu8] + spec_hex_join(s.drop_first())
    }
}

/// Two lower-case hex digits per byte.
pub open spec fn spec_hex_bytes(s: Seq<u8>) -> Seq<u8>
    decreases s.len(),
{
    if s.len() == 0 {
        Seq::empty()
    } else {
        seq![
            spec_hex_digit(((s[0] >> 4) & 0xf) as int),
            spec_hex_digit((s[0] & 0xf) as int),
        ] + spec_hex_bytes(s.drop_first())
    }
}

/// What the digest of the given bytes is; see [`sha256`].
pub uninterp spec fn sha256_of(data: Seq<u8>) -> Seq<u8>;

/// Relies on sha2's Sha256 through the Digest trait: the digest is a pure
/// function of the input bytes, and its output size is 32 bytes.
#[verifier::external_body]
fn sha256(data: &[u8]) -> (r: Vec<u8>)
    ensures
        r@ == sha256_of(data@),
        r@.len() == 32,
{
    <sha2::Sha256 as sha2::Digest>::digest(data).to_vec()
}

/// First 12 lower-case hex characters of the SHA-256 digest.
pub open spec fn spec_hash12(x: Seq<u8>) -> Seq<u8> {
    spec_hex_bytes(sha256_of(x).take(6))
}

/// Two decimal digit characters for a count between 0 and 99.
pub open spec fn spec_dec2(n: int) -> Seq<u8>
    recommends
        0 <= n <= 99,
{
    seq![(0x30 + n / 10) as u8, (0x30 + n % 10) as u8]
}

/// A count capped at 99.
pub open spec fn spec_min99(n: int) -> int {
    if n > 99 {
        99
    } else {
        n
    }
}

/// Fixed two-character code of a protocol version.
pub open spec fn spec_version_tag(v: u16) -> Seq<u8> {
    if v == 0x0304 {
        seq![0x31u8, 0x33u8]
    } else if v == 0x0303 {
        seq![0x31u8, 0x32u8]
    } else if v == 0x0302 {
        seq![0x31u8, 0x31u8]
    } else if v == 0x0301 {
        seq![0x31u8, 0x30u8]
    } else if v == 0x0300 {
        seq![0x73u8, 0x33u8]
    } else if v == 0x0002 {
        seq![0x73u8, 0x32u8]
    } else if v == 0xfeff {
        seq![0x64u8, 0x31u8]
    } else if v == 0xfefd {
        seq![0x64u8, 0x32u8]
    } else if v == 0xfefc {
        seq![0x64u8, 0x33u8]
    } else {
        seq![0x30u8, 0x30u8]
    }
}

/// Printable ASCII, the characters allowed to appear in the ALPN tag.
pub open spec fn is_printable(b: u8) -> bool {
    0x21 <= b <= 0x7e
}

/// ALPN tag of one protocol name: its first and last byte when longer than
/// two bytes, else the whole name; "99" when a selected byte is not
/// printable ASCII.
pub open spec fn spec_alpn_fmt(a: Seq<u8>) -> Seq<u8> {
    if a.len() > 2 {
        if is_printable(a[0]) && is_printable(a.last()) {
            seq![a[0], a.last()]
        } else {
            seq![0x39u8, 0x39u8]
        }
    } else {
        if forall|i: int| 0 <= i < a.len() ==> is_printable(#[trigger] a[i]) {
            a
        } else {
            seq![0x39u8, 0x39u8]
        }
    }
}

/// The full JA4 fingerprint of a ClientHello model.
pub open spec fn spec_ja4(m: HelloModel) -> Seq<u8> {
    let ciphers_hex = spec_hex_join(m.cipher_suites.sort_by(u16_leq()));
    let exts_hex = spec_hex_join(m.extensions.filter(ext_kept()).sort_by(u16_leq()));
    let sigs_hex = spec_hex_join(m.signature_algorithms);
    seq![0x74u8] + spec_version_tag(m.tls_version) + seq![
        if m.sni is Some {
            0x64u8
        } else {
            0x69u8
        },
    ] + spec_dec2(spec_min99(m.cipher_suites.len() as int)) + spec_dec2(
        spec_min99(m.extensions.len() as int),
    ) + (if m.alpn.len() == 0 {
        seq![0x30u8, 0x30u8]
    } else {
        spec_alpn_fmt(m.alpn[0])
    }) + seq![0x5fu8] + spec_hash12(ciphers_hex) + seq![0x5fu8] + spec_hash12(
        exts_hex + seq![0x5fu8] + sigs_hex,
    )
}

proof fn lemma_filter_singleton(x: u16, p: spec_fn(u16) -> bool)
    ensures
        seq![x].filter(p) == if p(x) {
            seq![x]
        } else {
            Seq::<u16>::empty()
        },
{
    reveal(Seq::filter);
    assert(seq![x].drop_last() =~= Seq::<u16>::empty());
    assert(Seq::<u16>::empty().filter(p) =~= Seq::<u16>::empty());
    if p(x) {
        assert(seq![x].filter(p) =~= seq![x]);
    }
}

/// Sequences with the same multiset of elements keep that relation after
/// filtering.
proof fn lemma_filter_multiset(s1: Seq<u16>, s2: Seq<u16>, p: spec_fn(u16) -> bool)
    requires
        s1.to_multiset() == s2.to_multiset(),
    ensures
        s1.filter(p).to_multiset() == s2.filter(p).to_multiset(),
    decreases s1.len(),
{
    broadcast use vstd::seq_lib::group_to_multiset_ensures;
    broadcast use vstd::multiset::group_multiset_axioms;

    if s1.len() == 0 {
        reveal(Seq::filter);
        assert(s1.to_multiset().len() == 0);
        assert(s2.len() == 0);
        assert(s1.filter(p) =~= Seq::<u16>::empty());
        assert(s2.filter(p) =~= Seq::<u16>::empty());
    } else {
        let x = s1.last();
        let rest = s1.drop_last();
        assert(s1 =~= rest.push(x));
        assert(s1.to_multiset() == rest.to_multiset().insert(x));
        assert(s2.to_multiset().count(x) > 0);
        assert(s2.contains(x));
        let i = choose|i: int| 0 <= i < s2.len() && s2[i] == x;
        let s2r = s2.remove(i);
        assert(s2r.to_multiset() == s2.to_multiset().remove(x));
        assert(rest.to_multiset() =~= s2r.to_multiset());
        lemma_filter_multiset(rest, s2r, p);
        // Relate the filtered halves on each side.
        rest.lemma_filter_push(x, p);
        let s2a = s2.subrange(0, i);
        let s2b = s2.subrange(i + 1, s2.len() as int);
        assert(s2 =~= (s2a + seq![x]) + s2b);
        assert(s2r =~= s2a + s2b);
        Seq::filter_distributes_over_add(s2a + seq![x], s2b, p);
        Seq::filter_distributes_over_add(s2a, seq![x], p);
        Seq::filter_distributes_over_add(s2a, s2b, p);
        lemma_filter_singleton(x, p);
        lemma_multiset_commutative(s2a.filter(p) + seq![x].filter(p), s2b.filter(p));
        lemma_multiset_commutative(s2a.filter(p), seq![x].filter(p));
        lemma_multiset_commutative(s2a.filter(p), s2b.filter(p));
        if p(x) {
            assert(seq![x].filter(p).to_multiset() =~= Multiset::<u16>::empty().insert(x));
            assert(s1.filter(p).to_multiset() == rest.filter(p).to_multiset().insert(x));
            assert(s2.filter(p).to_multiset() =~= s2r.filter(p).to_multiset().insert(x));
        } else {
            assert(seq![x].filter(p).to_multiset() =~= Multiset::<u16>::empty());
            assert(s1.filter(p).to_multiset() == rest.filter(p).to_multiset());
            assert(s2.filter(p).to_multiset() =~= s2r.filter(p).to_multiset());
        }
        assert(s1.filter(p).to_multiset() =~= s2.filter(p).to_multiset());
    }
}

/// Law: the JA4 fingerprint is independent of the on-wire order of the
/// cipher suite list and of the extension list. Two hellos that agree on
/// version, SNI presence, ALPN list and signature algorithm list, and whose
/// cipher suite and extension lists are permutations of each other, have
/// the same fingerprint.
pub proof fn lemma_ja4_order_independent(a: HelloModel, b: HelloModel)
    requires
        a.tls_version == b.tls_version,
        a.sni is Some <==> b.sni is Some,
        a.cipher_suites.to_multiset() == b.cipher_suites.to_multiset(),
        a.extensions.to_multiset() == b.extensions.to_multiset(),
        a.signature_algorithms == b.signature_algorithms,
        a.alpn == b.alpn,
    ensures
        spec_ja4(a) == spec_ja4(b),
{
    broadcast use vstd::seq_lib::group_to_multiset_ensures;

    let leq = u16_leq();
    lemma_u16_leq_total();

    a.cipher_suites.lemma_sort_by_ensures(leq);
    b.cipher_suites.lemma_sort_by_ensures(leq);
    assert(a.cipher_suites.sort_by(leq).to_multiset() == b.cipher_suites.sort_by(leq).to_multiset());
    lemma_sorted_unique(a.cipher_suites.sort_by(leq), b.cipher_suites.sort_by(leq), leq);

    lemma_filter_multiset(a.extensions, b.extensions, ext_kept());
    let fa = a.extensions.filter(ext_kept());
    let fb = b.extensions.filter(ext_kept());
    fa.lemma_sort_by_ensures(leq);
    fb.lemma_sort_by_ensures(leq);
    assert(fa.sort_by(leq).to_multiset() == fb.sort_by(leq).to_multiset());
    lemma_sorted_unique(fa.sort_by(leq), fb.sort_by(leq), leq);

    assert(a.cipher_suites.len() == a.cipher_suites.to_multiset().len());
    assert(b.cipher_suites.len() == b.cipher_suites.to_multiset().len());
    assert(a.extensions.len() == a.extensions.to_multiset().len());
    assert(b.extensions.len() == b.extensions.to_multiset().len());
}

fn hex_digit(n: u8) -> (r: u8)
    requires
        n < 16,
    ensures
        r == spec_hex_digit(n as int),
        is_lower_hex(r),
{
    if n < 10 {
        0x30 + n
    } else {
        0x57 + n
    }
}

fn push_hex4(out: &mut Vec<u8>, v: u16)
    ensures
        final(out)@ == old(out)@ + spec_hex4(v),
{
    proof {
        assert((v >> 12) & 0xf < 16 && (v >> 8) & 0xf < 16 && (v >> 4) & 0xf < 16 && v & 0xf
            < 16) by (bit_vector);
    }
    out.push(hex_digit(((v >> 12) & 0xf) as u8));
    out.push(hex_digit(((v >> 8) & 0xf) as u8));
    out.push(hex_digit(((v >> 4) & 0xf) as u8));
    out.push(hex_digit((v & 0xf) as u8));
    proof {
        assert(final(out)@ =~= old(out)@ + spec_hex4(v));
    }
}

proof fn lemma_hex_join_push(s: Seq<u16>, x: u16)
    ensures
        spec_hex_join(s.push(x)) == if s.len() == 0 {
            spec_hex4(x)
        } else {
            spec_hex_join(s) + seq![0x2cu8] + spec_hex4(x)
        },
    decreases s.len(),
{
    if s.len() == 0 {
        assert(s.push(x).len() == 1);
        assert(s.push(x)[0] == x);
    } else {
        assert(s.push(x).drop_first() =~= s.drop_first().push(x));
        lemma_hex_join_push(s.drop_first(), x);
        if s.len() == 1 {
            assert(spec_hex_join(s) == spec_hex4(s[0]));
            assert(spec_hex_join(s.push(x)) =~= spec_hex_join(s) + seq![0x2cu8] + spec_hex4(x));
        } else {
            assert(spec_hex_join(s.push(x)) =~= spec_hex_join(s) + seq![0x2cu8] + spec_hex4(x));
        }
    }
}

/// Renders 16-bit values as lower-case four-digit hex groups joined by
/// commas; the empty list gives the empty string.
pub fn u16_slice_to_hex(data: &[u16]) -> (out: Vec<u8>)
    ensures
        out@ == spec_hex_join(data@),
{
    let mut out: Vec<u8> = Vec::new();
    let mut i: usize = 0;
    while i < data.len()
        invariant
            i <= data@.len(),
            out@ == spec_hex_join(data@.take(i as int)),
        decreases data@.len() - i,
    {
        proof {
            lemma_hex_join_push(data@.take(i as int), data@[i as int]);
            assert(data@.take(i as int).push(data@[i as int]) =~= data@.take(i + 1 as int));
        }
        if i > 0 {
            out.push(0x2cu8);
        }
        push_hex4(&mut out, data[i]);
        proof {
            if i == 0 {
                assert(out@ =~= spec_hex_join(data@.take(i + 1 as int)));
            } else {
                assert(out@ =~= spec_hex_join(data@.take(i as int)) + seq![0x2cu8] + spec_hex4(
                    data@[i as int],
                ));
            }
        }
        i = i + 1;
    }
    proof {
        assert(data@.take(data@.len() as int) =~= data@);
    }
    out
}

proof fn lemma_hex_bytes_props(s: Seq<u8>)
    ensures
        spec_hex_bytes(s).len() == 2 * s.len(),
        forall|i: int| 0 <= i < spec_hex_bytes(s).len() ==> is_lower_hex(#[trigger] spec_hex_bytes(s)[i]),
    decreases s.len(),
{
    if s.len() > 0 {
        lemma_hex_bytes_props(s.drop_first());
        let b = s[0];
        assert((b >> 4) & 0xf < 16 && b & 0xf < 16) by (bit_vector);
        assert forall|i: int| 0 <= i < spec_hex_bytes(s).len() implies is_lower_hex(
            spec_hex_bytes(s)[i],
        ) by {
            if i >= 2 {
                assert(spec_hex_bytes(s)[i] == spec_hex_bytes(s.drop_first())[i - 2]);
            }
        }
    }
}

/// First 12 lower-case hex characters (6 bytes) of the SHA-256 digest of
/// the input.
pub fn hash12(data: &[u8]) -> (out: Vec<u8>)
    ensures
        out@ == spec_hash12(data@),
        out@.len() == 12,
        forall|i: int| 0 <= i < out@.len() ==> is_lower_hex(#[trigger] out@[i]),
{
    let digest = sha256(data);
    let ghost d6 = digest@.take(6);
    let mut out: Vec<u8> = Vec::new();
    let mut i: usize = 0;
    proof {
        assert(d6.skip(0) =~= d6);
    }
    while i < 6
        invariant
            i <= 6,
            digest@.len() == 32,
            d6 == digest@.take(6),
            spec_hex_bytes(d6) == out@ + spec_hex_bytes(d6.skip(i as int)),
            out@.len() == 2 * i,
            forall|j: int| 0 <= j < out@.len() ==> is_lower_hex(#[trigger] out@[j]),
        decreases 6 - i,
    {
        let b = digest[i];
        proof {
            assert((b >> 4) & 0xf < 16 && b & 0xf < 16) by (bit_vector);
            assert(d6.skip(i as int)[0] == d6[i as int]);
            assert(d6.skip(i as int).drop_first() =~= d6.skip(i + 1 as int));
        }
        out.push(hex_digit(((b >> 4) & 0xf) as u8));
        out.push(hex_digit((b & 0xf) as u8));
        proof {
            assert(b == d6[i as int]);
            assert(spec_hex_bytes(d6.skip(i as int)) == seq![
                spec_hex_digit(((b >> 4) & 0xf) as int),
                spec_hex_digit((b & 0xf) as int),
            ] + spec_hex_bytes(d6.skip(i + 1 as int)));
            assert(spec_hex_bytes(d6) =~= out@ + spec_hex_bytes(d6.skip(i + 1 as int)));
        }
        i = i + 1;
    }
    proof {
        assert(d6.skip(6) =~= Seq::<u8>::empty());
        assert(spec_hex_bytes(d6) =~= out@);
        assert(sha256_of(data@).take(6) == d6);
    }
    out
}

/// Fixed two-character code per negotiated or legacy protocol version.
pub fn format_version(v: u16) -> (r: Vec<u8>)
    ensures
        r@ == spec_version_tag(v),
{
    let r: Vec<u8> = match v {
        0x0304 => vec![0x31u8, 0x33u8],
        0x0303 => vec![0x31u8, 0x32u8],
        0x0302 => vec![0x31u8, 0x31u8],
        0x0301 => vec![0x31u8, 0x30u8],
        0x0300 => vec![0x73u8, 0x33u8],
        0x0002 => vec![0x73u8, 0x32u8],
        0xfeff => vec![0x64u8, 0x31u8],
        0xfefd => vec![0x64u8, 0x32u8],
        0xfefc => vec![0x64u8, 0x33u8],
        _ => vec![0x30u8, 0x30u8],
    };
    proof {
        assert(r@ =~= spec_version_tag(v));
    }
    r
}

fn is_printable_byte(b: u8) -> (r: bool)
    ensures
        r == is_printable(b),
{
    0x21 <= b && b <= 0x7e
}

/// ALPN tag of one protocol name.
pub fn format_alpn(alpn: &[u8]) -> (r: Vec<u8>)
    ensures
        r@ == spec_alpn_fmt(alpn@),
{
    if alpn.len() > 2 {
        let first = alpn[0];
        let last = alpn[alpn.len() - 1];
        if is_printable_byte(first) && is_printable_byte(last) {
            let r = vec![first, last];
            proof {
                assert(r@ =~= spec_alpn_fmt(alpn@));
            }
            r
        } else {
            let r = vec![0x39u8, 0x39u8];
            proof {
                assert(r@ =~= spec_alpn_fmt(alpn@));
            }
            r
        }
    } else {
        let mut all_printable = true;
        let mut i: usize = 0;
        while i < alpn.len()
            invariant
                i <= alpn@.len(),
                all_printable == forall|j: int| 0 <= j < i ==> is_printable(#[trigger] alpn@[j]),
            decreases alpn@.len() - i,
        {
            if !is_printable_byte(alpn[i]) {
                all_printable = false;
            }
            i = i + 1;
        }
        if all_printable {
            let mut r: Vec<u8> = Vec::new();
            r.extend_from_slice(alpn);
            proof {
                assert(r@ =~= spec_alpn_fmt(alpn@));
            }
            r
        } else {
            let r = vec![0x39u8, 0x39u8];
            proof {
                assert(r@ =~= spec_alpn_fmt(alpn@));
            }
            r
        }
    }
}

/// Sorts 16-bit values ascending; the result is the canonical sorted
/// permutation of the input.
pub fn sort_u16(v: &[u16]) -> (out: Vec<u16>)
    ensures
        out@ == v@.sort_by(u16_leq()),
{
    let ghost leq = u16_leq();
    let mut out: Vec<u16> = Vec::new();
    let mut i: usize = 0;
    proof {
        broadcast use vstd::seq_lib::group_to_multiset_ensures;
        broadcast use vstd::seq_lib::to_multiset_insert;

    }
    while i < v.len()
        invariant
            i <= v@.len(),
            leq == u16_leq(),
            sorted_by(out@, leq),
            out@.to_multiset() == v@.take(i as int).to_multiset(),
        decreases v@.len() - i,
    {
        broadcast use vstd::seq_lib::group_to_multiset_ensures;
        broadcast use vstd::seq_lib::to_multiset_insert;

        let x = v[i];
        let mut j: usize = 0;
        while j < out.len() && out[j] <= x
            invariant
                j <= out@.len(),
                forall|k: int| 0 <= k < j ==> out@[k] <= x,
            decreases out@.len() - j,
        {
            j = j + 1;
        }
        let ghost prev = out@;
        out.insert(j, x);
        proof {
            prev.insert_ensures(j as int, x);
            assert forall|p: int, q: int| 0 <= p < q < out@.len() implies leq(
                out@[p],
                out@[q],
            ) by {
                if q < j {
                    assert(out@[p] == prev[p] && out@[q] == prev[q]);
                } else if q == j {
                    assert(out@[q] == x && out@[p] == prev[p] && prev[p] <= x);
                } else {
                    assert(out@[q] == prev[q - 1] && j <= q - 1 < prev.len());
                    if p < j {
                        assert(out@[p] == prev[p]);
                        if j < prev.len() {
                            assert(prev[p] <= x && x < prev[j as int]);
                            if j < q - 1 {
                                assert(leq(prev[j as int], prev[q - 1]));
                            }
                        }
                    } else if p == j {
                        assert(out@[p] == x && x < prev[j as int]);
                        if j < q - 1 {
                            assert(leq(prev[j as int], prev[q - 1]));
                        }
                    } else {
                        assert(out@[p] == prev[p - 1]);
                    }
                }
            }
            assert(sorted_by(out@, leq));
            assert(v@.take(i as int).push(x) =~= v@.take(i + 1 as int));
        }
        i = i + 1;
    }
    proof {
        assert(v@.take(v@.len() as int) =~= v@);
        lemma_u16_leq_total();
        v@.lemma_sort_by_ensures(leq);
        lemma_sorted_unique(out@, v@.sort_by(leq), leq);
        assert(out@ =~= v@.sort_by(leq));
    }
    out
}

/// Keeps the extension types that belong in the extension hash: everything
/// but SNI and ALPN.
pub fn filter_extensions(exts: &[u16]) -> (out: Vec<u16>)
    ensures
        out@ == exts@.filter(ext_kept()),
{
    broadcast use vstd::seq_lib::group_seq_properties;

    let mut out: Vec<u16> = Vec::new();
    let mut i: usize = 0;
    proof {
        assert(exts@.take(0).filter(ext_kept()) =~= Seq::<u16>::empty());
    }
    while i < exts.len()
        invariant
            i <= exts@.len(),
            out@ == exts@.take(i as int).filter(ext_kept()),
        decreases exts@.len() - i,
    {
        let e = exts[i];
        proof {
            exts@.take(i as int).lemma_filter_push(e, ext_kept());
            assert(exts@.take(i as int).push(e) =~= exts@.take(i + 1 as int));
        }
        if e != 0x0000 && e != 0x0010 {
            out.push(e);
        }
        i = i + 1;
    }
    proof {
        assert(exts@.take(exts@.len() as int) =~= exts@);
    }
    out
}

/// Calculated JA4 fingerprint, an ASCII byte string of fixed layout.
#[derive(Debug, Clone, PartialEq, Eq, Hash)]
pub struct Ja4Fingerprint {
    bytes: Vec<u8>,
}

impl View for Ja4Fingerprint {
    type V = Seq<u8>;

    closed spec fn view(&self) -> Seq<u8> {
        self.bytes@
    }
}

fn push_dec2(out: &mut Vec<u8>, n: usize)
    requires
        n <= 99,
    ensures
        final(out)@ == old(out)@ + spec_dec2(n as int),
{
    out.push(0x30 + (n / 10) as u8);
    out.push(0x30 + (n % 10) as u8);
    proof {
        assert(final(out)@ =~= old(out)@ + spec_dec2(n as int));
    }
}

impl Ja4Fingerprint {
    /// The fingerprint's ASCII bytes.
    pub fn as_bytes(&self) -> (r: &[u8])
        ensures
            r@ == self@,
    {
        self.bytes.as_slice()
    }

    /// Derives the JA4 fingerprint of a parsed ClientHello.
    #[verifier::rlimit(60)]
    pub fn calculate(client_hello: &ClientHello) -> (r: Ja4Fingerprint)
        ensures
            r@ == spec_ja4(client_hello@),
    {
        let sorted_ciphers = sort_u16(client_hello.cipher_suites.as_slice());
        let ciphers_hex = u16_slice_to_hex(sorted_ciphers.as_slice());

        let kept = filter_extensions(client_hello.extensions.as_slice());
        let sorted_exts = sort_u16(kept.as_slice());
        let exts_hex = u16_slice_to_hex(sorted_exts.as_slice());

        let sigs_hex = u16_slice_to_hex(client_hello.signature_algorithms.as_slice());

        let mut second_input = exts_hex;
        second_input.push(0x5fu8);
        second_input.extend_from_slice(sigs_hex.as_slice());

        let first_hash = hash12(ciphers_hex.as_slice());
        let second_hash = hash12(second_input.as_slice());

        let mut out: Vec<u8> = Vec::new();
        out.push(0x74u8);
        let version_tag = format_version(client_hello.tls_version);
        out.extend_from_slice(version_tag.as_slice());
        if client_hello.sni.is_some() {
            out.push(0x64u8);
        } else {
            out.push(0x69u8);
        }
        let cipher_count = if client_hello.cipher_suites.len() > 99 {
            99
        } else {
            client_hello.cipher_suites.len()
        };
        push_dec2(&mut out, cipher_count);
        let ext_count = if client_hello.extensions.len() > 99 {
            99
        } else {
            client_hello.extensions.len()
        };
        push_dec2(&mut out, ext_count);
        if client_hello.alpn.len() == 0 {
            out.push(0x30u8);
            out.push(0x30u8);
        } else {
            let tag = format_alpn(client_hello.alpn[0].as_slice());
            out.extend_from_slice(tag.as_slice());
        }
        out.push(0x5fu8);
        out.extend_from_slice(first_hash.as_slice());
        out.push(0x5fu8);
        out.extend_from_slice(second_hash.as_slice());
        proof {
            let m = client_hello@;
            let ciphers_hex_s = spec_hex_join(m.cipher_suites.sort_by(u16_leq()));
            let exts_hex_s = spec_hex_join(m.extensions.filter(ext_kept()).sort_by(u16_leq()));
            let sigs_hex_s = spec_hex_join(m.signature_algorithms);
            assert(ciphers_hex@ == ciphers_hex_s);
            assert(second_input@ =~= exts_hex_s + seq![0x5fu8] + sigs_hex_s);
            assert(first_hash@ == spec_hash12(ciphers_hex_s));
            assert(second_hash@ == spec_hash12(exts_hex_s + seq![0x5fu8] + sigs_hex_s));
            assert(cipher_count as int == spec_min99(m.cipher_suites.len() as int));
            assert(ext_count as int == spec_min99(m.extensions.len() as int));
            assert(m.alpn.len() != 0 ==> m.alpn[0] == client_hello.alpn@[0]@);
            assert(out@ =~= spec_ja4(m));
        }
        Ja4Fingerprint { bytes: out }
    }
}

} // verus!
