//! Deterministic byte codec for the dependency graph: `encode` always yields
//! the same bytes for the same graph value, and `decode` is its exact
//! inverse, rejecting malformed bytes instead of panicking or truncating.
//!
//! Layout: a little-endian 64-bit package count, then each package as its
//! name, version, optional source (a presence byte, then the string), a kind
//! byte, and its dependency indices as a 64-bit count followed by 64-bit
//! indices. A string is a 64-bit character count followed by each character's
//! Unicode scalar value as 32 little-endian bits.

use crate::model::{graph_wf, DependencyGraph, Package, PackageKind, PackageView};
use vstd::bytes::{
    lemma_auto_spec_u32_to_from_le_bytes, lemma_auto_spec_u64_to_from_le_bytes,
    spec_u32_from_le_bytes, spec_u32_to_le_bytes, spec_u64_from_le_bytes, spec_u64_to_le_bytes,
    u32_from_le_bytes, u32_to_le_bytes, u64_from_le_bytes, u64_to_le_bytes,
};
use vstd::prelude::*;
use vstd::slice::slice_subrange;
use vstd::string::StrSliceExecFns;
use vstd::utf8::is_scalar;

verus! {

/// Malformed payload bytes: the input is not the encoding of any valid
/// dependency graph.
#[derive(Clone, Copy, PartialEq, Eq, Structural, Debug)]
pub struct CodecError;

// ---------------------------------------------------------------------------
// The encoding, as a mathematical function of the graph value.
// ---------------------------------------------------------------------------
/// Eight little-endian bytes of a 64-bit value.
pub open spec fn enc_u64(x: u64) -> Seq<u8> {
    spec_u64_to_le_bytes(x)
}

/// Four little-endian bytes of a 32-bit value.
pub open spec fn enc_u32(x: u32) -> Seq<u8> {
    spec_u32_to_le_bytes(x)
}

/// The byte standing for a package kind.
pub open spec fn kind_byte(k: PackageKind) -> u8 {
    match k {
        PackageKind::Runtime => 0,
        PackageKind::Build => 1,
        PackageKind::Development => 2,
    }
}

/// Each character as its 32-bit scalar value, in order.
pub open spec fn enc_chars(s: Seq<char>) -> Seq<u8>
    decreases s.len(),
{
    if s.len() == 0 {
        Seq::empty()
    } else {
        enc_u32(s[0] as u32) + enc_chars(s.drop_first())
    }
}

/// A string: its character count, then its characters.
pub open spec fn enc_str(s: Seq<char>) -> Seq<u8> {
    enc_u64(s.len() as u64) + enc_chars(s)
}

/// An optional string: a presence byte, then the string if present.
pub open spec fn enc_opt_str(o: Option<Seq<char>>) -> Seq<u8> {
    match o {
        None => seq![0u8],
        Some(s) => seq![1u8] + enc_str(s),
    }
}

/// Each dependency index as a 64-bit value, in order.
pub open spec fn enc_indices(d: Seq<usize>) -> Seq<u8>
    decreases d.len(),
{
    if d.len() == 0 {
        Seq::empty()
    } else {
        enc_u64(d[0] as u64) + enc_indices(d.drop_first())
    }
}

/// One package record.
pub open spec fn enc_pkg(p: PackageView) -> Seq<u8> {
    enc_str(p.name) + enc_str(p.version) + enc_opt_str(p.source) + seq![kind_byte(p.kind)]
        + enc_u64(p.dependencies.len() as u64) + enc_indices(p.dependencies)
}

/// The package records, in order.
pub open spec fn enc_pkgs(ps: Seq<PackageView>) -> Seq<u8>
    decreases ps.len(),
{
    if ps.len() == 0 {
        Seq::empty()
    } else {
        enc_pkg(ps[0]) + enc_pkgs(ps.drop_first())
    }
}

/// The whole payload: the package count, then the package records.
pub open spec fn spec_encode(g: Seq<PackageView>) -> Seq<u8> {
    enc_u64(g.len() as u64) + enc_pkgs(g)
}

/// Every count of the graph is representable in the encoding's 64-bit
/// length fields (a machine limit, not a property of the data).
pub open spec fn pkg_sizes_fit(p: PackageView) -> bool {
    &&& p.name.len() <= u64::MAX
    &&& p.version.len() <= u64::MAX
    &&& (p.source matches Some(s) ==> s.len() <= u64::MAX)
    &&& p.dependencies.len() <= u64::MAX
}

/// See [`pkg_sizes_fit`]; graphs held in memory always satisfy this.
pub open spec fn sizes_fit(g: Seq<PackageView>) -> bool {
    &&& g.len() <= u64::MAX
    &&& forall|i: int| 0 <= i < g.len() ==> pkg_sizes_fit(#[trigger] g[i])
}

// ---------------------------------------------------------------------------
// The decoding, as a mathematical partial function of the bytes. Each parser
// yields the parsed value and the bytes that follow it, or nothing when the
// input opens with no valid encoding of the expected shape.
// ---------------------------------------------------------------------------
pub open spec fn dec_u64(b: Seq<u8>) -> Option<(u64, Seq<u8>)> {
    if b.len() >= 8 {
        Some((spec_u64_from_le_bytes(b.take(8)), b.skip(8)))
    } else {
        None
    }
}

pub open spec fn dec_u32(b: Seq<u8>) -> Option<(u32, Seq<u8>)> {
    if b.len() >= 4 {
        Some((spec_u32_from_le_bytes(b.take(4)), b.skip(4)))
    } else {
        None
    }
}

pub open spec fn dec_byte(b: Seq<u8>) -> Option<(u8, Seq<u8>)> {
    if b.len() >= 1 {
        Some((b[0], b.skip(1)))
    } else {
        None
    }
}

/// `n` characters, each a 32-bit Unicode scalar value.
pub open spec fn dec_chars(n: nat, b: Seq<u8>) -> Option<(Seq<char>, Seq<u8>)>
    decreases n,
{
    if n == 0 {
        Some((Seq::empty(), b))
    } else {
        match dec_u32(b) {
            None => None,
            Some((v, b1)) => if is_scalar(v) {
                match dec_chars((n - 1) as nat, b1) {
                    None => None,
                    Some((cs, b2)) => Some((seq![v as char] + cs, b2)),
                }
            } else {
                None
            },
        }
    }
}

pub open spec fn dec_str(b: Seq<u8>) -> Option<(Seq<char>, Seq<u8>)> {
    match dec_u64(b) {
        None => None,
        Some((n, b1)) => dec_chars(n as nat, b1),
    }
}

pub open spec fn dec_opt_str(b: Seq<u8>) -> Option<(Option<Seq<char>>, Seq<u8>)> {
    match dec_byte(b) {
        None => None,
        Some((t, b1)) => if t == 0 {
            Some((None, b1))
        } else if t == 1 {
            match dec_str(b1) {
                None => None,
                Some((s, b2)) => Some((Some(s), b2)),
            }
        } else {
            None
        },
    }
}

pub open spec fn dec_kind(b: Seq<u8>) -> Option<(PackageKind, Seq<u8>)> {
    match dec_byte(b) {
        None => None,
        Some((t, b1)) => if t == 0 {
            Some((PackageKind::Runtime, b1))
        } else if t == 1 {
            Some((PackageKind::Build, b1))
        } else if t == 2 {
            Some((PackageKind::Development, b1))
        } else {
            None
        },
    }
}

/// `n` dependency indices, each resolving within a graph of `count` packages
/// and representable on this machine.
pub open spec fn dec_indices(n: nat, count: u64, b: Seq<u8>) -> Option<(Seq<usize>, Seq<u8>)>
    decreases n,
{
    if n == 0 {
        Some((Seq::empty(), b))
    } else {
        match dec_u64(b) {
            None => None,
            Some((idx, b1)) => if idx < count && idx <= usize::MAX as u64 {
                match dec_indices((n - 1) as nat, count, b1) {
                    None => None,
                    Some((d, b2)) => Some((seq![idx as usize] + d, b2)),
                }
            } else {
                None
            },
        }
    }
}

pub open spec fn dec_deps(count: u64, b: Seq<u8>) -> Option<(Seq<usize>, Seq<u8>)> {
    match dec_u64(b) {
        None => None,
        Some((m, b1)) => dec_indices(m as nat, count, b1),
    }
}

pub open spec fn dec_pkg(count: u64, b: Seq<u8>) -> Option<(PackageView, Seq<u8>)> {
    match dec_str(b) {
        None => None,
        Some((name, b1)) => match dec_str(b1) {
            None => None,
            Some((version, b2)) => match dec_opt_str(b2) {
                None => None,
                Some((source, b3)) => match dec_kind(b3) {
                    None => None,
                    Some((kind, b4)) => match dec_deps(count, b4) {
                        None => None,
                        Some((deps, b5)) => Some(
                            (PackageView { name, version, source, kind, dependencies: deps }, b5),
                        ),
                    },
                },
            },
        },
    }
}

pub open spec fn dec_pkgs(n: nat, count: u64, b: Seq<u8>) -> Option<(Seq<PackageView>, Seq<u8>)>
    decreases n,
{
    if n == 0 {
        Some((Seq::empty(), b))
    } else {
        match dec_pkg(count, b) {
            None => None,
            Some((p, b1)) => match dec_pkgs((n - 1) as nat, count, b1) {
                None => None,
                Some((ps, b2)) => Some((seq![p] + ps, b2)),
            },
        }
    }
}

/// The graph encoded by `b`, if `b` is exactly the encoding of a valid graph:
/// the declared number of packages, parsed in full with no bytes left over,
/// with resolvable dependency edges and unique package identities.
pub open spec fn spec_decode(b: Seq<u8>) -> Option<Seq<PackageView>> {
    match dec_u64(b) {
        None => None,
        Some((n, b1)) => match dec_pkgs(n as nat, n, b1) {
            None => None,
            Some((ps, rest)) => if rest.len() == 0 && crate::model::triples_unique(ps) {
                Some(ps)
            } else {
                None
            },
        },
    }
}

// ---------------------------------------------------------------------------
// Appending one element to a sequence extends its encoding at the end.
// ---------------------------------------------------------------------------
proof fn lemma_enc_chars_snoc(s: Seq<char>, c: char)
    ensures
        enc_chars(s.push(c)) == enc_chars(s) + enc_u32(c as u32),
    decreases s.len(),
{
    if s.len() == 0 {
        assert(s.push(c)[0] == c);
        assert(s.push(c).drop_first() =~= Seq::<char>::empty());
        assert(enc_chars(Seq::<char>::empty()) == Seq::<u8>::empty());
        assert(enc_chars(s.push(c)) == enc_u32(c as u32) + Seq::<u8>::empty());
        assert(enc_chars(s.push(c)) =~= enc_chars(s) + enc_u32(c as u32));
    } else {
        assert(s.push(c)[0] == s[0]);
        assert(s.push(c).drop_first() =~= s.drop_first().push(c));
        assert(enc_chars(s.push(c)) == enc_u32(s[0] as u32) + enc_chars(s.drop_first().push(c)));
        lemma_enc_chars_snoc(s.drop_first(), c);
        assert(enc_chars(s.push(c)) =~= enc_chars(s) + enc_u32(c as u32));
    }
}

proof fn lemma_enc_indices_snoc(d: Seq<usize>, x: usize)
    ensures
        enc_indices(d.push(x)) == enc_indices(d) + enc_u64(x as u64),
    decreases d.len(),
{
    if d.len() == 0 {
        assert(d.push(x)[0] == x);
        assert(d.push(x).drop_first() =~= Seq::<usize>::empty());
        assert(enc_indices(Seq::<usize>::empty()) == Seq::<u8>::empty());
        assert(enc_indices(d.push(x)) == enc_u64(x as u64) + Seq::<u8>::empty());
        assert(enc_indices(d.push(x)) =~= enc_indices(d) + enc_u64(x as u64));
    } else {
        assert(d.push(x)[0] == d[0]);
        assert(d.push(x).drop_first() =~= d.drop_first().push(x));
        assert(enc_indices(d.push(x)) == enc_u64(d[0] as u64) + enc_indices(d.drop_first().push(x)));
        lemma_enc_indices_snoc(d.drop_first(), x);
        assert(enc_indices(d.push(x)) =~= enc_indices(d) + enc_u64(x as u64));
    }
}

proof fn lemma_enc_pkgs_snoc(ps: Seq<PackageView>, p: PackageView)
    ensures
        enc_pkgs(ps.push(p)) == enc_pkgs(ps) + enc_pkg(p),
    decreases ps.len(),
{
    if ps.len() == 0 {
        assert(ps.push(p)[0] == p);
        assert(ps.push(p).drop_first() =~= Seq::<PackageView>::empty());
        assert(enc_pkgs(Seq::<PackageView>::empty()) == Seq::<u8>::empty());
        assert(enc_pkgs(ps.push(p)) == enc_pkg(p) + Seq::<u8>::empty());
        assert(enc_pkgs(ps.push(p)) =~= enc_pkgs(ps) + enc_pkg(p));
    } else {
        assert(ps.push(p)[0] == ps[0]);
        assert(ps.push(p).drop_first() =~= ps.drop_first().push(p));
        assert(enc_pkgs(ps.push(p)) == enc_pkg(ps[0]) + enc_pkgs(ps.drop_first().push(p)));
        lemma_enc_pkgs_snoc(ps.drop_first(), p);
        assert(enc_pkgs(ps.push(p)) =~= enc_pkgs(ps) + enc_pkg(p));
    }
}

// ---------------------------------------------------------------------------
// The encoder.
// ---------------------------------------------------------------------------
fn push_u64(out: &mut Vec<u8>, x: u64)
    ensures
        final (out)@ == old(out)@ + enc_u64(x),
{
    let mut b = u64_to_le_bytes(x);
    out.append(&mut b);
}

fn push_u32(out: &mut Vec<u8>, x: u32)
    ensures
        final (out)@ == old(out)@ + enc_u32(x),
{
    let mut b = u32_to_le_bytes(x);
    out.append(&mut b);
}

fn push_chars(out: &mut Vec<u8>, s: &str)
    ensures
        final (out)@ == old(out)@ + enc_chars(s@),
{
    let n = s.unicode_len();
    let mut i: usize = 0;
    proof {
        assert(s@.take(0) =~= Seq::<char>::empty());
        assert(out@ =~= old(out)@ + enc_chars(s@.take(0)));
    }
    while i < n
        invariant
            n == s@.len(),
            i <= n,
            out@ == old(out)@ + enc_chars(s@.take(i as int)),
        decreases n - i,
    {
        let c = s.get_char(i);
        push_u32(out, c as u32);
        proof {
            assert(s@.take(i + 1) =~= s@.take(i as int).push(s@[i as int]));
            lemma_enc_chars_snoc(s@.take(i as int), s@[i as int]);
            assert(old(out)@ + enc_chars(s@.take(i as int)) + enc_u32(c as u32) =~= old(out)@
                + enc_chars(s@.take(i + 1)));
        }
        i += 1;
    }
    proof {
        assert(s@.take(n as int) =~= s@);
    }
}

fn push_str(out: &mut Vec<u8>, s: &str)
    ensures
        final (out)@ == old(out)@ + enc_str(s@),
        s@.len() <= u64::MAX,
{
    let n = s.unicode_len();
    push_u64(out, n as u64);
    push_chars(out, s);
    proof {
        assert(old(out)@ + enc_u64(s@.len() as u64) + enc_chars(s@) =~= old(out)@ + enc_str(s@));
    }
}

fn push_opt_str(out: &mut Vec<u8>, o: &Option<String>)
    ensures
        final (out)@ == old(out)@ + enc_opt_str(crate::model::opt_view(*o)),
        crate::model::opt_view(*o) matches Some(s) ==> s.len() <= u64::MAX,
{
    match o {
        None => {
            out.push(0);
            proof {
                assert(old(out)@.push(0u8) =~= old(out)@ + enc_opt_str(None));
            }
        },
        Some(s) => {
            out.push(1);
            push_str(out, s.as_str());
            proof {
                assert(old(out)@.push(1u8) + enc_str(s@) =~= old(out)@ + enc_opt_str(Some(s@)));
            }
        },
    }
}

fn push_pkg(out: &mut Vec<u8>, p: &Package)
    ensures
        final (out)@ == old(out)@ + enc_pkg(p@),
        pkg_sizes_fit(p@),
{
    push_str(out, p.name.as_str());
    push_str(out, p.version.as_str());
    push_opt_str(out, &p.source);
    let kb: u8 = match p.kind {
        PackageKind::Runtime => 0,
        PackageKind::Build => 1,
        PackageKind::Development => 2,
    };
    out.push(kb);
    let m = p.dependencies.len();
    push_u64(out, m as u64);
    let ghost mid = out@;
    let mut k: usize = 0;
    proof {
        assert(p.dependencies@.take(0) =~= Seq::<usize>::empty());
        assert(out@ =~= mid + enc_indices(p.dependencies@.take(0)));
    }
    while k < m
        invariant
            m == p.dependencies.len(),
            k <= m,
            out@ == mid + enc_indices(p.dependencies@.take(k as int)),
        decreases m - k,
    {
        let idx = p.dependencies[k];
        push_u64(out, idx as u64);
        proof {
            assert(p.dependencies@.take(k + 1) =~= p.dependencies@.take(k as int).push(
                p.dependencies@[k as int],
            ));
            lemma_enc_indices_snoc(p.dependencies@.take(k as int), p.dependencies@[k as int]);
            assert(mid + enc_indices(p.dependencies@.take(k as int)) + enc_u64(idx as u64) =~= mid
                + enc_indices(p.dependencies@.take(k + 1)));
        }
        k += 1;
    }
    proof {
        assert(p.dependencies@.take(m as int) =~= p.dependencies@);
        assert(old(out)@ + enc_str(p.name@) + enc_str(p.version@) + enc_opt_str(
            crate::model::opt_view(p.source),
        ) + seq![kind_byte(p.kind)] + enc_u64(p.dependencies@.len() as u64) + enc_indices(
            p.dependencies@,
        ) =~= old(out)@ + enc_pkg(p@));
    }
}

/// Serializes the graph to its payload bytes: a deterministic function of the
/// graph value, so the same graph always yields identical bytes. Every count
/// of a graph held in memory fits the format's length fields, so a valid
/// encoded graph always decodes back (see [`lemma_decode_encode`]).
pub fn encode(g: &DependencyGraph) -> (r: Vec<u8>)
    ensures
        r@ == spec_encode(g@),
        sizes_fit(g@),
{
    let mut out: Vec<u8> = Vec::new();
    let n = g.packages.len();
    proof {
        assert(g@.len() == n);
    }
    push_u64(&mut out, n as u64);
    let ghost mid = out@;
    let mut i: usize = 0;
    proof {
        assert(g@.take(0) =~= Seq::<PackageView>::empty());
        assert(out@ =~= mid + enc_pkgs(g@.take(0)));
    }
    while i < n
        invariant
            n == g.packages.len(),
            g@.len() == n,
            i <= n,
            mid == Seq::<u8>::empty() + enc_u64(n as u64),
            out@ == mid + enc_pkgs(g@.take(i as int)),
            forall|p: int| 0 <= p < i ==> pkg_sizes_fit(#[trigger] g@[p]),
        decreases n - i,
    {
        push_pkg(&mut out, &g.packages[i]);
        proof {
            assert(g@[i as int] == g.packages@[i as int]@);
            assert(g@.take(i + 1) =~= g@.take(i as int).push(g@[i as int]));
            lemma_enc_pkgs_snoc(g@.take(i as int), g@[i as int]);
            assert(mid + enc_pkgs(g@.take(i as int)) + enc_pkg(g@[i as int]) =~= mid + enc_pkgs(
                g@.take(i + 1),
            ));
        }
        i += 1;
    }
    proof {
        assert(g@.take(n as int) =~= g@);
        assert(mid + enc_pkgs(g@) =~= spec_encode(g@));
        assert(sizes_fit(g@));
    }
    out
}

// ---------------------------------------------------------------------------
// Parsing one more element extends a successful parse; a failing element
// fails every longer parse from the same start.
// ---------------------------------------------------------------------------
proof fn lemma_dec_chars_snoc(k: nat, b: Seq<u8>, v: u32, r1: Seq<u8>)
    requires
        dec_chars(k, b) is Some,
        dec_u32(({ let pr = dec_chars(k, b)->0; pr.1 })) == Some((v, r1)),
        is_scalar(v),
    ensures
        dec_chars(k + 1, b) == Some((({ let pr = dec_chars(k, b)->0; pr.0 }).push(v as char), r1)),
    decreases k,
{
    let (cs, r) = dec_chars(k, b)->0;
    if k == 0 {
        assert(cs =~= Seq::<char>::empty());
        assert(seq![v as char] + Seq::<char>::empty() =~= cs.push(v as char));
    } else {
        let (v0, b1) = dec_u32(b)->0;
        assert(dec_u32(b) is Some);
        assert(is_scalar(v0));
        assert(dec_chars((k - 1) as nat, b1) is Some);
        let (cs1, r2) = dec_chars((k - 1) as nat, b1)->0;
        assert(cs == seq![v0 as char] + cs1);
        assert(r == r2);
        assert(cs1 =~= cs.drop_first());
        lemma_dec_chars_snoc((k - 1) as nat, b1, v, r1);
        assert(dec_chars(k, b1) == Some((cs1.push(v as char), r1)));
        assert(dec_chars(k + 1, b) == Some((seq![v0 as char] + cs1.push(v as char), r1)));
        assert(seq![v0 as char] + cs1.push(v as char) =~= cs.push(v as char));
    }
}

proof fn lemma_dec_chars_fail(n: nat, k: nat, b: Seq<u8>)
    requires
        k < n,
        dec_chars(k, b) is Some,
        ({
            let pr = dec_chars(k, b)->0;
            dec_u32(pr.1) is None || !is_scalar(({ let qr = dec_u32(pr.1)->0; qr.0 }))
        }),
    ensures
        dec_chars(n, b) is None,
    decreases k,
{
    if k == 0 {
    } else {
        let (v0, b1) = dec_u32(b)->0;
        lemma_dec_chars_fail((n - 1) as nat, (k - 1) as nat, b1);
    }
}

proof fn lemma_dec_indices_snoc(k: nat, count: u64, b: Seq<u8>, x: u64, r1: Seq<u8>)
    requires
        dec_indices(k, count, b) is Some,
        dec_u64(({ let pr = dec_indices(k, count, b)->0; pr.1 })) == Some((x, r1)),
        x < count && x <= usize::MAX as u64,
    ensures
        dec_indices(k + 1, count, b) == Some(
            (({ let pr = dec_indices(k, count, b)->0; pr.0 }).push(x as usize), r1),
        ),
    decreases k,
{
    let (d, r) = dec_indices(k, count, b)->0;
    if k == 0 {
        assert(d =~= Seq::<usize>::empty());
        assert(dec_indices(0, count, r1) == Some((Seq::<usize>::empty(), r1)));
        assert(dec_indices(k + 1, count, b) == Some(
            (seq![x as usize] + Seq::<usize>::empty(), r1),
        ));
        assert(seq![x as usize] + Seq::<usize>::empty() =~= d.push(x as usize));
    } else {
        let (x0, b1) = dec_u64(b)->0;
        assert(dec_u64(b) is Some);
        assert(x0 < count && x0 <= usize::MAX as u64);
        assert(dec_indices((k - 1) as nat, count, b1) is Some);
        let (d1, r2) = dec_indices((k - 1) as nat, count, b1)->0;
        assert(d == seq![x0 as usize] + d1);
        assert(r == r2);
        assert(d1 =~= d.drop_first());
        lemma_dec_indices_snoc((k - 1) as nat, count, b1, x, r1);
        assert(dec_indices(k, count, b1) == Some((d1.push(x as usize), r1)));
        assert(dec_indices(k + 1, count, b) == Some((seq![x0 as usize] + d1.push(x as usize), r1)));
        assert(seq![x0 as usize] + d1.push(x as usize) =~= d.push(x as usize));
    }
}

proof fn lemma_dec_indices_fail(n: nat, k: nat, count: u64, b: Seq<u8>)
    requires
        k < n,
        dec_indices(k, count, b) is Some,
        ({
            let pr = dec_indices(k, count, b)->0;
            dec_u64(pr.1) is None || !(({ let qr = dec_u64(pr.1)->0; qr.0 }) < count && ({ let qr = dec_u64(pr.1)->0; qr.0 }) <= usize::MAX as u64)
        }),
    ensures
        dec_indices(n, count, b) is None,
    decreases k,
{
    if k == 0 {
    } else {
        let (x0, b1) = dec_u64(b)->0;
        lemma_dec_indices_fail((n - 1) as nat, (k - 1) as nat, count, b1);
    }
}

proof fn lemma_dec_pkgs_snoc(k: nat, count: u64, b: Seq<u8>, p: PackageView, r1: Seq<u8>)
    requires
        dec_pkgs(k, count, b) is Some,
        dec_pkg(count, ({ let pr = dec_pkgs(k, count, b)->0; pr.1 })) == Some((p, r1)),
    ensures
        dec_pkgs(k + 1, count, b) == Some((({ let pr = dec_pkgs(k, count, b)->0; pr.0 }).push(p), r1)),
    decreases k,
{
    let (ps, r) = dec_pkgs(k, count, b)->0;
    if k == 0 {
        assert(ps =~= Seq::<PackageView>::empty());
        assert(dec_pkgs(0, count, r1) == Some((Seq::<PackageView>::empty(), r1)));
        assert(dec_pkgs(k + 1, count, b) == Some((seq![p] + Seq::<PackageView>::empty(), r1)));
        assert(seq![p] + Seq::<PackageView>::empty() =~= ps.push(p));
    } else {
        let (p0, b1) = dec_pkg(count, b)->0;
        assert(dec_pkg(count, b) is Some);
        assert(dec_pkgs((k - 1) as nat, count, b1) is Some);
        let (ps1, r2) = dec_pkgs((k - 1) as nat, count, b1)->0;
        assert(ps == seq![p0] + ps1);
        assert(r == r2);
        assert(ps1 =~= ps.drop_first());
        lemma_dec_pkgs_snoc((k - 1) as nat, count, b1, p, r1);
        assert(dec_pkgs(k, count, b1) == Some((ps1.push(p), r1)));
        assert(dec_pkgs(k + 1, count, b) == Some((seq![p0] + ps1.push(p), r1)));
        assert(seq![p0] + ps1.push(p) =~= ps.push(p));
    }
}

proof fn lemma_dec_pkgs_fail(n: nat, k: nat, count: u64, b: Seq<u8>)
    requires
        k < n,
        dec_pkgs(k, count, b) is Some,
        dec_pkg(count, ({ let pr = dec_pkgs(k, count, b)->0; pr.1 })) is None,
    ensures
        dec_pkgs(n, count, b) is None,
    decreases k,
{
    if k == 0 {
    } else {
        let (p0, b1) = dec_pkg(count, b)->0;
        lemma_dec_pkgs_fail((n - 1) as nat, (k - 1) as nat, count, b1);
    }
}

// ---------------------------------------------------------------------------
// The decoder.
// ---------------------------------------------------------------------------
/// Relies on char::from_u32: it returns the character of a valid Unicode
/// scalar value (not a surrogate, at most 0x10FFFF) and None for any other
/// input.
#[verifier::external_body]
fn char_from_u32(v: u32) -> (r: Option<char>)
    ensures
        r is Some <==> is_scalar(v),
        r matches Some(c) ==> c as u32 == v,
{
    char::from_u32(v)
}

/// Relies on str's FromIterator through Iterator::collect: the collected
/// string holds exactly the given characters in order.
#[verifier::external_body]
fn string_from_chars(v: &Vec<char>) -> (r: String)
    ensures
        r@ == v@,
{
    v.iter().collect()
}

fn read_u64(bytes: &[u8], i: usize) -> (r: Option<(u64, usize)>)
    requires
        i <= bytes@.len(),
    ensures
        match r {
            Some(p) => i <= p.1 <= bytes@.len() && dec_u64(bytes@.skip(i as int)) == Some(
                (p.0, bytes@.skip(p.1 as int)),
            ),
            None => dec_u64(bytes@.skip(i as int)) is None,
        },
{
    if bytes.len() - i >= 8 {
        let s = slice_subrange(bytes, i, i + 8);
        let x = u64_from_le_bytes(s);
        proof {
            assert(bytes@.skip(i as int).take(8) =~= bytes@.subrange(i as int, i + 8));
            assert(bytes@.skip(i as int).skip(8) =~= bytes@.skip(i + 8));
        }
        Some((x, i + 8))
    } else {
        None
    }
}

fn read_u32(bytes: &[u8], i: usize) -> (r: Option<(u32, usize)>)
    requires
        i <= bytes@.len(),
    ensures
        match r {
            Some(p) => i <= p.1 <= bytes@.len() && dec_u32(bytes@.skip(i as int)) == Some(
                (p.0, bytes@.skip(p.1 as int)),
            ),
            None => dec_u32(bytes@.skip(i as int)) is None,
        },
{
    if bytes.len() - i >= 4 {
        let s = slice_subrange(bytes, i, i + 4);
        let x = u32_from_le_bytes(s);
        proof {
            assert(bytes@.skip(i as int).take(4) =~= bytes@.subrange(i as int, i + 4));
            assert(bytes@.skip(i as int).skip(4) =~= bytes@.skip(i + 4));
        }
        Some((x, i + 4))
    } else {
        None
    }
}

fn read_byte(bytes: &[u8], i: usize) -> (r: Option<(u8, usize)>)
    requires
        i <= bytes@.len(),
    ensures
        match r {
            Some(p) => i <= p.1 <= bytes@.len() && dec_byte(bytes@.skip(i as int)) == Some(
                (p.0, bytes@.skip(p.1 as int)),
            ),
            None => dec_byte(bytes@.skip(i as int)) is None,
        },
{
    if bytes.len() - i >= 1 {
        let x = bytes[i];
        proof {
            assert(bytes@.skip(i as int)[0] == bytes@[i as int]);
            assert(bytes@.skip(i as int).skip(1) =~= bytes@.skip(i + 1));
        }
        Some((x, i + 1))
    } else {
        None
    }
}

fn read_str(bytes: &[u8], i: usize) -> (r: Option<(String, usize)>)
    requires
        i <= bytes@.len(),
    ensures
        match r {
            Some(p) => i <= p.1 <= bytes@.len() && dec_str(bytes@.skip(i as int)) == Some(
                (p.0@, bytes@.skip(p.1 as int)),
            ),
            None => dec_str(bytes@.skip(i as int)) is None,
        },
{
    match read_u64(bytes, i) {
        None => None,
        Some((n, i1)) => {
            let mut acc: Vec<char> = Vec::new();
            let mut cur: usize = i1;
            let mut k: u64 = 0;
            proof {
                assert(acc@ =~= Seq::<char>::empty());
            }
            while k < n
                invariant
                    i <= i1 <= cur <= bytes@.len(),
                    k <= n,
                    acc@.len() == k as nat,
                    dec_u64(bytes@.skip(i as int)) == Some((n, bytes@.skip(i1 as int))),
                    dec_chars(k as nat, bytes@.skip(i1 as int)) == Some(
                        (acc@, bytes@.skip(cur as int)),
                    ),
                decreases n - k,
            {
                let step = read_u32(bytes, cur);
                match step {
                    None => {
                        proof {
                            lemma_dec_chars_fail(n as nat, k as nat, bytes@.skip(i1 as int));
                        }
                        return None;
                    },
                    Some((v, cur1)) => {
                        match char_from_u32(v) {
                            None => {
                                proof {
                                    lemma_dec_chars_fail(
                                        n as nat,
                                        k as nat,
                                        bytes@.skip(i1 as int),
                                    );
                                }
                                return None;
                            },
                            Some(c) => {
                                proof {
                                    vstd::utf8::char_u32_cast(c, v);
                                    lemma_dec_chars_snoc(
                                        k as nat,
                                        bytes@.skip(i1 as int),
                                        v,
                                        bytes@.skip(cur1 as int),
                                    );
                                }
                                acc.push(c);
                                cur = cur1;
                                k = k + 1;
                            },
                        }
                    },
                }
            }
            let s = string_from_chars(&acc);
            Some((s, cur))
        },
    }
}

fn read_opt_str(bytes: &[u8], i: usize) -> (r: Option<(Option<String>, usize)>)
    requires
        i <= bytes@.len(),
    ensures
        match r {
            Some(p) => i <= p.1 <= bytes@.len() && dec_opt_str(bytes@.skip(i as int)) == Some(
                (crate::model::opt_view(p.0), bytes@.skip(p.1 as int)),
            ),
            None => dec_opt_str(bytes@.skip(i as int)) is None,
        },
{
    match read_byte(bytes, i) {
        None => None,
        Some((t, i1)) => {
            if t == 0 {
                Some((None, i1))
            } else if t == 1 {
                match read_str(bytes, i1) {
                    None => None,
                    Some((s, i2)) => Some((Some(s), i2)),
                }
            } else {
                None
            }
        },
    }
}

fn read_kind(bytes: &[u8], i: usize) -> (r: Option<(PackageKind, usize)>)
    requires
        i <= bytes@.len(),
    ensures
        match r {
            Some(p) => i <= p.1 <= bytes@.len() && dec_kind(bytes@.skip(i as int)) == Some(
                (p.0, bytes@.skip(p.1 as int)),
            ),
            None => dec_kind(bytes@.skip(i as int)) is None,
        },
{
    match read_byte(bytes, i) {
        None => None,
        Some((t, i1)) => {
            if t == 0 {
                Some((PackageKind::Runtime, i1))
            } else if t == 1 {
                Some((PackageKind::Build, i1))
            } else if t == 2 {
                Some((PackageKind::Development, i1))
            } else {
                None
            }
        },
    }
}

fn read_deps(bytes: &[u8], i: usize, count: u64) -> (r: Option<(Vec<usize>, usize)>)
    requires
        i <= bytes@.len(),
    ensures
        match r {
            Some(p) => {
                &&& i <= p.1 <= bytes@.len()
                &&& dec_deps(count, bytes@.skip(i as int)) == Some(
                    (p.0@, bytes@.skip(p.1 as int)),
                )
                &&& forall|q: int| 0 <= q < p.0@.len() ==> (#[trigger] p.0@[q] as u64) < count
            },
            None => dec_deps(count, bytes@.skip(i as int)) is None,
        },
{
    match read_u64(bytes, i) {
        None => None,
        Some((m, i1)) => {
            let mut acc: Vec<usize> = Vec::new();
            let mut cur: usize = i1;
            let mut k: u64 = 0;
            let max_u64: u64 = usize::MAX as u64;
            proof {
                assert(acc@ =~= Seq::<usize>::empty());
            }
            while k < m
                invariant
                    i <= i1 <= cur <= bytes@.len(),
                    k <= m,
                    max_u64 == usize::MAX as u64,
                    dec_u64(bytes@.skip(i as int)) == Some((m, bytes@.skip(i1 as int))),
                    dec_indices(k as nat, count, bytes@.skip(i1 as int)) == Some(
                        (acc@, bytes@.skip(cur as int)),
                    ),
                    forall|q: int| 0 <= q < acc@.len() ==> (#[trigger] acc@[q] as u64) < count,
                decreases m - k,
            {
                let step = read_u64(bytes, cur);
                match step {
                    None => {
                        proof {
                            lemma_dec_indices_fail(
                                m as nat,
                                k as nat,
                                count,
                                bytes@.skip(i1 as int),
                            );
                        }
                        return None;
                    },
                    Some((x, cur1)) => {
                        if x < count && x <= max_u64 {
                            proof {
                                lemma_dec_indices_snoc(
                                    k as nat,
                                    count,
                                    bytes@.skip(i1 as int),
                                    x,
                                    bytes@.skip(cur1 as int),
                                );
                            }
                            acc.push(x as usize);
                            cur = cur1;
                            k = k + 1;
                        } else {
                            proof {
                                lemma_dec_indices_fail(
                                    m as nat,
                                    k as nat,
                                    count,
                                    bytes@.skip(i1 as int),
                                );
                            }
                            return None;
                        }
                    },
                }
            }
            Some((acc, cur))
        },
    }
}

fn read_pkg(bytes: &[u8], i: usize, count: u64) -> (r: Option<(Package, usize)>)
    requires
        i <= bytes@.len(),
    ensures
        match r {
            Some(p) => {
                &&& i <= p.1 <= bytes@.len()
                &&& dec_pkg(count, bytes@.skip(i as int)) == Some((p.0@, bytes@.skip(p.1 as int)))
                &&& crate::model::pkg_deps_ok(p.0@, count as nat)
            },
            None => dec_pkg(count, bytes@.skip(i as int)) is None,
        },
{
    match read_str(bytes, i) {
        None => None,
        Some((name, i1)) => match read_str(bytes, i1) {
            None => None,
            Some((version, i2)) => match read_opt_str(bytes, i2) {
                None => None,
                Some((source, i3)) => match read_kind(bytes, i3) {
                    None => None,
                    Some((kind, i4)) => match read_deps(bytes, i4, count) {
                        None => None,
                        Some((dependencies, i5)) => {
                            let p = Package { name, version, source, kind, dependencies };
                            Some((p, i5))
                        },
                    },
                },
            },
        },
    }
}

/// Deserializes payload bytes back to the dependency graph they encode.
/// Succeeds exactly on the encodings of valid graphs: the declared number of
/// packages must parse in full, leave no trailing bytes, resolve every
/// dependency edge, and repeat no package identity; anything else is a
/// [`CodecError`].
pub fn decode(bytes: &[u8]) -> (r: Result<DependencyGraph, CodecError>)
    ensures
        match r {
            Ok(g) => spec_decode(bytes@) == Some(g@) && graph_wf(g@),
            Err(_) => spec_decode(bytes@) is None,
        },
{
    proof {
        assert(bytes@.skip(0) =~= bytes@);
    }
    match read_u64(bytes, 0) {
        None => Err(CodecError),
        Some((n, i1)) => {
            let mut pkgs: Vec<Package> = Vec::new();
            let mut cur: usize = i1;
            let mut k: u64 = 0;
            proof {
                assert(crate::model::pkgs_view(pkgs@) =~= Seq::<PackageView>::empty());
            }
            while k < n
                invariant
                    i1 <= cur <= bytes@.len(),
                    k <= n,
                    pkgs@.len() == k as nat,
                    dec_u64(bytes@) == Some((n, bytes@.skip(i1 as int))),
                    dec_pkgs(k as nat, n, bytes@.skip(i1 as int)) == Some(
                        (crate::model::pkgs_view(pkgs@), bytes@.skip(cur as int)),
                    ),
                    forall|q: int|
                        0 <= q < pkgs@.len() ==> crate::model::pkg_deps_ok(
                            #[trigger] crate::model::pkgs_view(pkgs@)[q],
                            n as nat,
                        ),
                decreases n - k,
            {
                let step = read_pkg(bytes, cur, n);
                match step {
                    None => {
                        proof {
                            lemma_dec_pkgs_fail(n as nat, k as nat, n, bytes@.skip(i1 as int));
                        }
                        return Err(CodecError);
                    },
                    Some((p, cur1)) => {
                        proof {
                            lemma_dec_pkgs_snoc(
                                k as nat,
                                n,
                                bytes@.skip(i1 as int),
                                p@,
                                bytes@.skip(cur1 as int),
                            );
                            assert(crate::model::pkgs_view(pkgs@.push(p)) =~= crate::model::pkgs_view(
                                pkgs@,
                            ).push(p@));
                        }
                        pkgs.push(p);
                        cur = cur1;
                        k = k + 1;
                    },
                }
            }
            if cur != bytes.len() {
                proof {
                    assert(bytes@.skip(cur as int).len() != 0);
                }
                return Err(CodecError);
            }
            let ghost parsed = crate::model::pkgs_view(pkgs@);
            proof {
                assert(parsed.len() == n as nat);
                assert(crate::model::indices_ok(parsed));
            }
            match DependencyGraph::new(pkgs) {
                Ok(g) => {
                    proof {
                        assert(crate::model::triples_unique(parsed));
                        assert(bytes@.skip(cur as int).len() == 0);
                    }
                    Ok(g)
                },
                Err(_) => {
                    proof {
                        assert(!crate::model::triples_unique(parsed));
                    }
                    Err(CodecError)
                },
            }
        },
    }
}

// ---------------------------------------------------------------------------
// Decoding inverts encoding: each parser, fed the encoding of a value
// followed by arbitrary bytes, yields that value and those bytes.
// ---------------------------------------------------------------------------
proof fn lemma_dec_enc_u64(x: u64, rest: Seq<u8>)
    ensures
        dec_u64(enc_u64(x) + rest) == Some((x, rest)),
{
    lemma_auto_spec_u64_to_from_le_bytes();
    assert((enc_u64(x) + rest).take(8) =~= enc_u64(x));
    assert((enc_u64(x) + rest).skip(8) =~= rest);
}

proof fn lemma_dec_enc_u32(x: u32, rest: Seq<u8>)
    ensures
        dec_u32(enc_u32(x) + rest) == Some((x, rest)),
{
    lemma_auto_spec_u32_to_from_le_bytes();
    assert((enc_u32(x) + rest).take(4) =~= enc_u32(x));
    assert((enc_u32(x) + rest).skip(4) =~= rest);
}

proof fn lemma_dec_enc_byte(t: u8, rest: Seq<u8>)
    ensures
        dec_byte(seq![t] + rest) == Some((t, rest)),
{
    assert((seq![t] + rest)[0] == t);
    assert((seq![t] + rest).skip(1) =~= rest);
}

proof fn lemma_dec_enc_chars(s: Seq<char>, rest: Seq<u8>)
    ensures
        dec_chars(s.len(), enc_chars(s) + rest) == Some((s, rest)),
    decreases s.len(),
{
    if s.len() == 0 {
        assert(enc_chars(s) + rest =~= rest);
    } else {
        let c = s[0];
        let tail = s.drop_first();
        vstd::utf8::char_is_scalar(c);
        vstd::utf8::char_u32_cast(c, c as u32);
        assert(enc_chars(s) + rest =~= enc_u32(c as u32) + (enc_chars(tail) + rest));
        lemma_dec_enc_u32(c as u32, enc_chars(tail) + rest);
        lemma_dec_enc_chars(tail, rest);
        assert(seq![(c as u32) as char] + tail =~= s);
        assert(dec_chars(s.len(), enc_chars(s) + rest) == Some((s, rest)));
    }
}

proof fn lemma_dec_enc_str(s: Seq<char>, rest: Seq<u8>)
    requires
        s.len() <= u64::MAX,
    ensures
        dec_str(enc_str(s) + rest) == Some((s, rest)),
{
    assert(enc_str(s) + rest =~= enc_u64(s.len() as u64) + (enc_chars(s) + rest));
    lemma_dec_enc_u64(s.len() as u64, enc_chars(s) + rest);
    assert((s.len() as u64) as nat == s.len());
    lemma_dec_enc_chars(s, rest);
}

proof fn lemma_dec_enc_opt_str(o: Option<Seq<char>>, rest: Seq<u8>)
    requires
        o matches Some(s) ==> s.len() <= u64::MAX,
    ensures
        dec_opt_str(enc_opt_str(o) + rest) == Some((o, rest)),
{
    match o {
        None => {
            assert(enc_opt_str(o) + rest =~= seq![0u8] + rest);
            lemma_dec_enc_byte(0, rest);
        },
        Some(s) => {
            assert(enc_opt_str(o) + rest =~= seq![1u8] + (enc_str(s) + rest));
            lemma_dec_enc_byte(1, enc_str(s) + rest);
            lemma_dec_enc_str(s, rest);
        },
    }
}

proof fn lemma_dec_enc_kind(k: PackageKind, rest: Seq<u8>)
    ensures
        dec_kind(seq![kind_byte(k)] + rest) == Some((k, rest)),
{
    lemma_dec_enc_byte(kind_byte(k), rest);
}

proof fn lemma_dec_enc_indices(d: Seq<usize>, count: u64, rest: Seq<u8>)
    requires
        forall|q: int| 0 <= q < d.len() ==> (#[trigger] d[q] as u64) < count,
    ensures
        dec_indices(d.len(), count, enc_indices(d) + rest) == Some((d, rest)),
    decreases d.len(),
{
    if d.len() == 0 {
        assert(enc_indices(d) + rest =~= rest);
    } else {
        let x = d[0];
        let tail = d.drop_first();
        assert(enc_indices(d) + rest =~= enc_u64(x as u64) + (enc_indices(tail) + rest));
        lemma_dec_enc_u64(x as u64, enc_indices(tail) + rest);
        assert(x as u64 <= usize::MAX as u64);
        assert(forall|q: int| 0 <= q < tail.len() ==> (#[trigger] tail[q] as u64) < count);
        lemma_dec_enc_indices(tail, count, rest);
        assert((x as u64) as usize == x);
        assert(seq![(x as u64) as usize] + tail =~= d);
        assert(dec_indices(d.len(), count, enc_indices(d) + rest) == Some((d, rest)));
    }
}

proof fn lemma_dec_enc_pkg(p: PackageView, count: u64, rest: Seq<u8>)
    requires
        pkg_sizes_fit(p),
        forall|q: int|
            0 <= q < p.dependencies.len() ==> (#[trigger] p.dependencies[q] as u64) < count,
    ensures
        dec_pkg(count, enc_pkg(p) + rest) == Some((p, rest)),
{
    let r4 = enc_indices(p.dependencies) + rest;
    let r3 = enc_u64(p.dependencies.len() as u64) + r4;
    let r2 = seq![kind_byte(p.kind)] + r3;
    let r1 = enc_opt_str(p.source) + r2;
    let r0 = enc_str(p.version) + r1;
    assert(enc_pkg(p) + rest =~= enc_str(p.name) + r0);
    lemma_dec_enc_str(p.name, r0);
    lemma_dec_enc_str(p.version, r1);
    lemma_dec_enc_opt_str(p.source, r2);
    lemma_dec_enc_kind(p.kind, r3);
    lemma_dec_enc_u64(p.dependencies.len() as u64, r4);
    assert((p.dependencies.len() as u64) as nat == p.dependencies.len());
    lemma_dec_enc_indices(p.dependencies, count, rest);
    assert(dec_deps(count, r3) == Some((p.dependencies, rest)));
    assert(dec_pkg(count, enc_pkg(p) + rest) == Some((p, rest)));
}

proof fn lemma_dec_enc_pkgs(ps: Seq<PackageView>, count: u64, rest: Seq<u8>)
    requires
        forall|i: int| 0 <= i < ps.len() ==> pkg_sizes_fit(#[trigger] ps[i]),
        forall|i: int|
            0 <= i < ps.len() ==> crate::model::pkg_deps_ok(#[trigger] ps[i], count as nat),
    ensures
        dec_pkgs(ps.len(), count, enc_pkgs(ps) + rest) == Some((ps, rest)),
    decreases ps.len(),
{
    if ps.len() == 0 {
        assert(enc_pkgs(ps) + rest =~= rest);
    } else {
        let p = ps[0];
        let tail = ps.drop_first();
        assert(enc_pkgs(ps) + rest =~= enc_pkg(p) + (enc_pkgs(tail) + rest));
        assert(crate::model::pkg_deps_ok(p, count as nat));
        assert(forall|q: int|
            0 <= q < p.dependencies.len() ==> (#[trigger] p.dependencies[q] as u64) < count);
        lemma_dec_enc_pkg(p, count, enc_pkgs(tail) + rest);
        assert(forall|i: int| 0 <= i < tail.len() ==> pkg_sizes_fit(#[trigger] tail[i]));
        assert(forall|i: int|
            0 <= i < tail.len() ==> crate::model::pkg_deps_ok(#[trigger] tail[i], count as nat));
        lemma_dec_enc_pkgs(tail, count, rest);
        assert(seq![p] + tail =~= ps);
        assert(dec_pkgs(ps.len(), count, enc_pkgs(ps) + rest) == Some((ps, rest)));
    }
}

/// Round trip: the encoding of any valid graph whose counts fit the format's
/// 64-bit length fields decodes back to exactly that graph.
pub proof fn lemma_decode_encode(g: Seq<PackageView>)
    requires
        graph_wf(g),
        sizes_fit(g),
    ensures
        spec_decode(spec_encode(g)) == Some(g),
{
    let rest = Seq::<u8>::empty();
    let count = g.len() as u64;
    assert(spec_encode(g) =~= enc_u64(count) + (enc_pkgs(g) + rest));
    lemma_dec_enc_u64(count, enc_pkgs(g) + rest);
    assert(count as nat == g.len());
    assert(forall|i: int|
        0 <= i < g.len() ==> crate::model::pkg_deps_ok(#[trigger] g[i], count as nat));
    lemma_dec_enc_pkgs(g, count, rest);
    assert(crate::model::triples_unique(g));
    assert(spec_decode(spec_encode(g)) == Some(g));
}

/// Content addressability: byte-identical payloads carry identical graphs,
/// since on valid graphs the encoding is injective.
pub proof fn lemma_encode_injective(g1: Seq<PackageView>, g2: Seq<PackageView>)
    requires
        graph_wf(g1),
        sizes_fit(g1),
        graph_wf(g2),
        sizes_fit(g2),
        spec_encode(g1) == spec_encode(g2),
    ensures
        g1 == g2,
{
    lemma_decode_encode(g1);
    lemma_decode_encode(g2);
}

/// Encoding is a function of the graph value alone: two calls on equal graphs
/// yield identical bytes.
pub proof fn lemma_encode_deterministic(g1: Seq<PackageView>, g2: Seq<PackageView>)
    requires
        g1 == g2,
    ensures
        spec_encode(g1) == spec_encode(g2),
{
}

} // verus!
