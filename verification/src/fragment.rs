//! Fragment reassembly: large replies arrive as several datagrams, each
//! carrying a sequence index, and must be concatenated in index order
//! regardless of arrival order.
//!
//! A fragmented payload announces its index in-band: a leading `#`,
//! up to nine decimal digits, and one space.  A payload without that
//! header is the sole fragment, with index zero.

use vstd::prelude::*;

use crate::codec::{copy_range, SPACE};
use crate::decode::{
    all_digits, clone_bytes, digits_end, digits_val, lemma_digits_end_props, lemma_digits_val_bound,
    lemma_pow10_le, lemma_pow10_vals, parse_digits, scan_digits,
};
use crate::error::Error;
use crate::response::views_of;

verus! {

pub const HASH: u8 = 0x23;

/// One fragment of a reply: its sequence index and its data.
#[derive(Debug, PartialEq, Eq)]
pub struct Fragment {
    pub index: u32,
    pub data: Vec<u8>,
}

impl View for Fragment {
    type V = (int, Seq<u8>);

    open spec fn view(&self) -> (int, Seq<u8>) {
        (self.index as int, self.data@)
    }
}

/// Views of a sequence of fragments.
pub open spec fn frag_views(fs: Seq<Fragment>) -> Seq<(int, Seq<u8>)> {
    fs.map_values(|f: Fragment| f@)
}

/// Some fragment carries index `k`.
pub open spec fn has_index(fs: Seq<(int, Seq<u8>)>, k: int) -> bool {
    exists|i: int| 0 <= i < fs.len() && fs[i].0 == k
}

/// Every index up to the fragment count is present.
pub open spec fn complete(fs: Seq<(int, Seq<u8>)>) -> bool {
    forall|k: int| 0 <= k < fs.len() ==> has_index(fs, k)
}

/// No two fragments carry the same index.
pub open spec fn indices_distinct(fs: Seq<(int, Seq<u8>)>) -> bool {
    forall|i: int, j: int| 0 <= i < j < fs.len() ==> fs[i].0 != fs[j].0
}

/// Position of the first fragment with index `k` at or after `i`,
/// or `fs.len()` when there is none.
pub open spec fn find_frag(fs: Seq<(int, Seq<u8>)>, k: int, i: int) -> int
    decreases fs.len() - i,
{
    if i < 0 || i >= fs.len() {
        fs.len() as int
    } else if fs[i].0 == k {
        i
    } else {
        find_frag(fs, k, i + 1)
    }
}

/// Data of the first fragment with index `k`.
pub open spec fn data_at(fs: Seq<(int, Seq<u8>)>, k: int) -> Seq<u8> {
    fs[find_frag(fs, k, 0)].1
}

/// Concatenation of the data of the fragments with indices `0 .. m`,
/// in index order.
pub open spec fn assembled_upto(fs: Seq<(int, Seq<u8>)>, m: int) -> Seq<u8>
    decreases m,
{
    if m <= 0 {
        Seq::empty()
    } else {
        assembled_upto(fs, m - 1) + data_at(fs, m - 1)
    }
}

/// The fully reassembled payload.
pub open spec fn assembled(fs: Seq<(int, Seq<u8>)>) -> Seq<u8> {
    assembled_upto(fs, fs.len() as int)
}

proof fn lemma_find_frag_props(fs: Seq<(int, Seq<u8>)>, k: int, i: int)
    requires
        0 <= i <= fs.len(),
    ensures
        i <= find_frag(fs, k, i) <= fs.len(),
        find_frag(fs, k, i) < fs.len() ==> fs[find_frag(fs, k, i)].0 == k,
        find_frag(fs, k, i) == fs.len() ==> forall|j: int| i <= j < fs.len() ==> fs[j].0 != k,
    decreases fs.len() - i,
{
    if i < fs.len() && fs[i].0 != k {
        lemma_find_frag_props(fs, k, i + 1);
    }
}

/// Position of the first fragment with index `k`, as executable code.
fn find_frag_x(frags: &Vec<Fragment>, k: usize) -> (r: usize)
    ensures
        r as int == find_frag(frag_views(frags@), k as int, 0),
        r <= frags.len(),
{
    let ghost fv = frag_views(frags@);
    let mut i: usize = 0;
    while i < frags.len() && frags[i].index as u64 != k as u64
        invariant
            i <= frags.len(),
            fv == frag_views(frags@),
            find_frag(fv, k as int, 0) == find_frag(fv, k as int, i as int),
        decreases frags.len() - i,
    {
        proof {
            assert(fv[i as int] == frags@[i as int]@);
        }
        i = i + 1;
    }
    proof {
        if i < frags.len() {
            assert(fv[i as int] == frags@[i as int]@);
        }
        assert(find_frag(fv, k as int, i as int) == i as int);
    }
    i
}

/// Reassemble fragments by index.
///
/// The fragments must carry exactly the indices `0 .. n`; the result is
/// their data concatenated in index order, whatever order they arrived
/// in.  When an index is repeated the first arrival wins; when one is
/// missing the reply is a decode error.
pub fn reassemble(frags: &Vec<Fragment>) -> (r: Result<Vec<u8>, Error>)
    ensures
        complete(frag_views(frags@)) ==> r is Ok && r->Ok_0@ == assembled(frag_views(frags@)),
        !complete(frag_views(frags@)) ==> r == Err::<Vec<u8>, Error>(Error::Decode),
{
    let ghost fv = frag_views(frags@);
    let n = frags.len();
    let mut out: Vec<u8> = Vec::new();
    let mut k: usize = 0;
    while k < n
        invariant
            k <= n,
            n == frags@.len(),
            fv == frag_views(frags@),
            forall|j: int| 0 <= j < k ==> has_index(fv, j),
            out@ == assembled_upto(fv, k as int),
        decreases n - k,
    {
        let pos = find_frag_x(frags, k);
        proof {
            lemma_find_frag_props(fv, k as int, 0);
        }
        if pos == n {
            proof {
                assert(!has_index(fv, k as int));
                assert(!complete(fv));
            }
            return Err(Error::Decode);
        }
        let ghost oldout = out@;
        let dlen = frags[pos].data.len();
        let mut b: usize = 0;
        while b < dlen
            invariant
                b <= dlen,
                pos < frags@.len(),
                dlen == frags@[pos as int].data@.len(),
                out@ == oldout + frags@[pos as int].data@.subrange(0, b as int),
            decreases dlen - b,
        {
            out.push(frags[pos].data[b]);
            proof {
                assert(oldout + frags@[pos as int].data@.subrange(0, b + 1 as int)
                    =~= (oldout + frags@[pos as int].data@.subrange(0, b as int)).push(
                    frags@[pos as int].data@[b as int],
                ));
            }
            b = b + 1;
        }
        proof {
            assert(frags@[pos as int].data@.subrange(0, dlen as int) =~= frags@[pos as int].data@);
            assert(fv[pos as int] == frags@[pos as int]@);
            assert(fv[pos as int].0 == k as int);
            assert(has_index(fv, k as int));
            assert(data_at(fv, k as int) == frags@[pos as int].data@);
            assert(out@ == assembled_upto(fv, k as int + 1));
        }
        k = k + 1;
    }
    proof {
        assert(complete(fv));
    }
    Ok(out)
}

/// Parse of a fragment header: a leading `#`, one to nine digits, and a
/// space give the index; any other `#`-led shape is a decode error; a
/// payload without the header is the sole fragment, with index zero.
pub open spec fn fragment_of(p: Seq<u8>) -> Option<(int, Seq<u8>)> {
    if p.len() == 0 || p[0] != HASH {
        Some((0, p))
    } else {
        let j = digits_end(p, 1);
        if j == 1 || j - 1 > 9 {
            None
        } else if j >= p.len() || p[j] != SPACE {
            None
        } else {
            Some((digits_val(p, 1, j), p.subrange(j + 1, p.len() as int)))
        }
    }
}

/// Split one payload into its sequence index and its data.
pub fn parse_fragment(p: &Vec<u8>) -> (r: Result<Fragment, Error>)
    ensures
        fragment_of(p@) is Some ==> r is Ok && r->Ok_0@ == fragment_of(p@)->Some_0,
        fragment_of(p@) is None ==> r == Err::<Fragment, Error>(Error::Decode),
{
    if p.len() == 0 || p[0] != HASH {
        return Ok(Fragment { index: 0, data: clone_bytes(p) });
    }
    let j = scan_digits(p, 1);
    if j == 1 || j - 1 > 9 {
        return Err(Error::Decode);
    }
    if j >= p.len() || p[j] != SPACE {
        return Err(Error::Decode);
    }
    proof {
        lemma_digits_end_props(p@, 1);
        lemma_digits_val_bound(p@, 1, j as int);
        lemma_pow10_le((j - 1) as nat, 9);
        lemma_pow10_vals();
    }
    let index = parse_digits(p, 1, j);
    let data = copy_range(p, j + 1, p.len());
    Ok(Fragment { index, data })
}

/// Parse of every payload of a reply, in arrival order.
pub open spec fn fragments_of(ps: Seq<Seq<u8>>) -> Option<Seq<(int, Seq<u8>)>>
    decreases ps.len(),
{
    if ps.len() == 0 {
        Some(Seq::empty())
    } else {
        match fragment_of(ps[0]) {
            None => None,
            Some(f) => match fragments_of(ps.skip(1)) {
                None => None,
                Some(rest) => Some(seq![f] + rest),
            },
        }
    }
}

/// Split every payload of a reply into a fragment, keeping arrival order.
pub fn parse_fragments(payloads: &Vec<Vec<u8>>) -> (r: Result<Vec<Fragment>, Error>)
    ensures
        fragments_of(views_of(payloads@)) is Some ==> r is Ok && frag_views(r->Ok_0@)
            == fragments_of(views_of(payloads@))->Some_0,
        fragments_of(views_of(payloads@)) is None ==> r == Err::<Vec<Fragment>, Error>(
            Error::Decode,
        ),
{
    let ghost ps = views_of(payloads@);
    let mut frags: Vec<Fragment> = Vec::new();
    let mut i: usize = 0;
    proof {
        assert(ps.skip(0) =~~= ps);
        assert(frag_views(frags@) + fragments_of(ps)->Some_0 =~~= fragments_of(ps)->Some_0);
    }
    while i < payloads.len()
        invariant
            i <= payloads.len(),
            ps == views_of(payloads@),
            fragments_of(ps) is Some <==> fragments_of(ps.skip(i as int)) is Some,
            fragments_of(ps) is Some ==> fragments_of(ps)->Some_0 == frag_views(frags@)
                + fragments_of(ps.skip(i as int))->Some_0,
        decreases payloads.len() - i,
    {
        proof {
            assert(ps.skip(i as int)[0] == ps[i as int]);
            assert(ps[i as int] == payloads@[i as int]@);
            assert(ps.skip(i as int).skip(1) =~~= ps.skip(i as int + 1));
        }
        match parse_fragment(&payloads[i]) {
            Ok(f) => {
                let ghost oldfrags = frags@;
                let ghost f_v = f@;
                frags.push(f);
                proof {
                    assert(frag_views(frags@) =~~= frag_views(oldfrags).push(f_v));
                    if fragments_of(ps) is Some {
                        assert(frag_views(oldfrags).push(f_v) + fragments_of(
                            ps.skip(i as int + 1),
                        )->Some_0 =~~= frag_views(oldfrags) + (seq![f_v] + fragments_of(
                            ps.skip(i as int + 1),
                        )->Some_0));
                    }
                }
            },
            Err(_) => {
                proof {
                    assert(fragment_of(ps.skip(i as int)[0]) is None);
                    assert(fragments_of(ps.skip(i as int)) is None);
                }
                return Err(Error::Decode);
            },
        }
        i = i + 1;
    }
    proof {
        assert(ps.skip(i as int) =~~= Seq::<Seq<u8>>::empty());
        assert(fragments_of(ps.skip(i as int)) == Some(Seq::<(int, Seq<u8>)>::empty()));
        if fragments_of(ps) is Some {
            assert(fragments_of(ps)->Some_0 =~~= frag_views(frags@));
        }
    }
    Ok(frags)
}

/// Reassembly is independent of arrival order: two deliveries of the same
/// fragments — the same multiset, with distinct indices and every index
/// present — assemble to the identical payload.
pub proof fn lemma_reassembly_order_independent(a: Seq<(int, Seq<u8>)>, b: Seq<(int, Seq<u8>)>)
    requires
        a.to_multiset() == b.to_multiset(),
        indices_distinct(a),
        complete(a),
    ensures
        b.len() == a.len(),
        complete(b),
        assembled(b) == assembled(a),
{
    a.to_multiset_ensures();
    b.to_multiset_ensures();
    assert(b.len() == a.len());
    assert forall|k: int| 0 <= k < b.len() implies has_index(b, k) by {
        assert(has_index(a, k));
        let i = choose|i: int| 0 <= i < a.len() && a[i].0 == k;
        assert(a.contains(a[i]));
        assert(b.to_multiset().count(a[i]) > 0);
        assert(b.contains(a[i]));
        let j = choose|j: int| 0 <= j < b.len() && b[j] == a[i];
        assert(b[j].0 == k);
    }
    assert forall|k: int| 0 <= k < a.len() implies data_at(b, k) == data_at(a, k) by {
        lemma_find_frag_props(a, k, 0);
        lemma_find_frag_props(b, k, 0);
        let fa = find_frag(a, k, 0);
        let fb = find_frag(b, k, 0);
        assert(has_index(a, k));
        if fa == a.len() {
            let i = choose|i: int| 0 <= i < a.len() && a[i].0 == k;
            assert(a[i].0 != k);
        }
        assert(has_index(b, k));
        if fb == b.len() {
            let j = choose|j: int| 0 <= j < b.len() && b[j].0 == k;
            assert(b[j].0 != k);
        }
        assert(b.contains(b[fb]));
        assert(a.to_multiset().count(b[fb]) > 0);
        assert(a.contains(b[fb]));
        let i2 = choose|i2: int| 0 <= i2 < a.len() && a[i2] == b[fb];
        assert(a[i2].0 == k);
        assert(a[fa].0 == k);
        if i2 != fa {
            assert(a[i2].0 != a[fa].0);
        }
        assert(a[i2] == a[fa]);
    }
    lemma_assembled_upto_pointwise(a, b, a.len() as int);
}

proof fn lemma_assembled_upto_pointwise(a: Seq<(int, Seq<u8>)>, b: Seq<(int, Seq<u8>)>, m: int)
    requires
        forall|k: int| 0 <= k < m ==> data_at(b, k) == data_at(a, k),
    ensures
        assembled_upto(b, m) == assembled_upto(a, m),
    decreases m,
{
    if m > 0 {
        lemma_assembled_upto_pointwise(a, b, m - 1);
    }
}

} // verus!
