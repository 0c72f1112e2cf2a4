//! Strain sequences: a haplotype's calls applied to a reference contig.

use vstd::prelude::*;

use crate::bytes::{contains_byte, copy_range};

verus! {

/// One allele call at a position of a contig.
pub struct VariantCall {
    pub position: i64,
    pub key: Vec<u8>,
}

/// The first call at `pos`, if any.
pub open spec fn call_at(calls: Seq<VariantCall>, pos: int) -> Option<Seq<u8>>
    decreases calls.len(),
{
    if calls.len() == 0 {
        None
    } else if calls[0].position == pos {
        Some(calls[0].key@)
    } else {
        call_at(calls.skip(1), pos)
    }
}

/// Positions consumed by applying call `v`: an ambiguous run (one holding
/// `N`) consumes its whole length, any other call one position.
pub open spec fn step_of(v: Seq<u8>) -> int {
    if v.contains('N' as u8) && v.len() > 1 {
        v.len() as int
    } else {
        1
    }
}

/// The reference position after applying call `v` at `pos`, at most `n`.
pub open spec fn next_pos(n: int, pos: int, v: Seq<u8>) -> int {
    if pos + step_of(v) > n {
        n
    } else {
        pos + step_of(v)
    }
}

/// Bases that call `v` contributes: the first base of an ambiguous run,
/// an insertion without its leading reference base, or the call itself.
pub open spec fn bases_of(v: Seq<u8>) -> Seq<u8> {
    if v.contains('N' as u8) {
        v.take(1)
    } else if v.len() > 1 {
        v.skip(1)
    } else {
        v
    }
}

/// The strain sequence from reference position `pos` on.
pub open spec fn emit_from(reference: Seq<u8>, calls: Seq<VariantCall>, pos: int) -> Seq<u8>
    decreases reference.len() - pos,
{
    if pos < 0 || pos >= reference.len() {
        seq![]
    } else {
        match call_at(calls, pos) {
            None => seq![reference[pos]] + emit_from(reference, calls, pos + 1),
            Some(v) => bases_of(v) + emit_from(reference, calls, next_pos(reference.len() as int, pos, v)),
        }
    }
}

/// Number of calls applied from reference position `pos` on.
pub open spec fn applied_from(reference: Seq<u8>, calls: Seq<VariantCall>, pos: int) -> int
    decreases reference.len() - pos,
{
    if pos < 0 || pos >= reference.len() {
        0
    } else {
        match call_at(calls, pos) {
            None => applied_from(reference, calls, pos + 1),
            Some(v) => 1 + applied_from(reference, calls, next_pos(reference.len() as int, pos, v)),
        }
    }
}

fn find_call(calls: &Vec<VariantCall>, pos: i64) -> (r: Option<usize>)
    ensures
        match r {
            Some(j) => j < calls@.len() && call_at(calls@, pos as int) == Some(calls@[j as int].key@),
            None => call_at(calls@, pos as int) is None,
        },
{
    let mut j: usize = 0;
    assert(calls@.skip(0) =~= calls@);
    while j < calls.len()
        invariant
            j <= calls@.len(),
            call_at(calls@, pos as int) == call_at(calls@.skip(j as int), pos as int),
        decreases calls@.len() - j,
    {
        assert(calls@.skip(j as int).skip(1) =~= calls@.skip(j + 1));
        if calls[j].position == pos {
            return Some(j);
        }
        j = j + 1;
    }
    None
}

/// Applies `calls` to `reference`; returns the strain sequence and the number
/// of calls applied.
pub fn emit_strain_sequence(reference: &Vec<u8>, calls: &Vec<VariantCall>) -> (r: (Vec<u8>, usize))
    requires
        reference@.len() <= i64::MAX,
    ensures
        r.0@ == emit_from(reference@, calls@, 0),
        r.1 == applied_from(reference@, calls@, 0),
{
    let mut out: Vec<u8> = Vec::new();
    let mut applied: usize = 0;
    let mut pos: usize = 0;
    let n = reference.len();
    while pos < n
        invariant
            n == reference@.len() <= i64::MAX,
            pos <= n,
            applied <= pos,
            out@ + emit_from(reference@, calls@, pos as int) == emit_from(reference@, calls@, 0),
            applied + applied_from(reference@, calls@, pos as int) == applied_from(
                reference@,
                calls@,
                0,
            ),
        decreases n - pos,
    {
        let ghost o = out@;
        match find_call(calls, pos as i64) {
            None => {
                out.push(reference[pos]);
                assert(o + emit_from(reference@, calls@, pos as int) =~= out@ + emit_from(
                    reference@,
                    calls@,
                    pos + 1,
                ));
                assert(applied_from(reference@, calls@, pos as int) == applied_from(
                    reference@,
                    calls@,
                    pos + 1,
                ));
                pos = pos + 1;
            },
            Some(j) => {
                let v = &calls[j].key;
                let ambiguous = contains_byte(v, 'N' as u8);
                let piece = if ambiguous {
                    if v.len() == 0 {
                        Vec::new()
                    } else {
                        copy_range(v, 0, 1)
                    }
                } else if v.len() > 1 {
                    copy_range(v, 1, v.len())
                } else {
                    copy_range(v, 0, v.len())
                };
                let step: usize = if ambiguous && v.len() > 1 {
                    v.len()
                } else {
                    1
                };
                proof {
                    assert(piece@ =~= bases_of(v@));
                    assert(step == step_of(v@));
                }
                let mut k: usize = 0;
                while k < piece.len()
                    invariant
                        k <= piece@.len(),
                        out@ == o + piece@.take(k as int),
                    decreases piece@.len() - k,
                {
                    out.push(piece[k]);
                    assert(piece@.take(k + 1) =~= piece@.take(k as int).push(piece@[k as int]));
                    k = k + 1;
                }
                assert(piece@.take(k as int) =~= piece@);
                let next = if step > n - pos {
                    n
                } else {
                    pos + step
                };
                assert(next == next_pos(n as int, pos as int, v@));
                assert(o + emit_from(reference@, calls@, pos as int) =~= out@ + emit_from(
                    reference@,
                    calls@,
                    next as int,
                ));
                assert(applied_from(reference@, calls@, pos as int) == 1 + applied_from(
                    reference@,
                    calls@,
                    next as int,
                ));
                applied = applied + 1;
                pos = next;
            },
        }
    }
    assert(emit_from(reference@, calls@, pos as int) =~= seq![]);
    (out, applied)
}

/// A variant of the feature list: its contig, position and allele.
pub struct SiteRef {
    pub tid: u32,
    pub position: i64,
    pub key: Vec<u8>,
}

/// The (position, allele) pairs of the sites on contig `tid` whose route is
/// `want`, in list order.
pub open spec fn picked(sites: Seq<SiteRef>, routes: Seq<Option<u64>>, want: Option<u64>, tid: u32) -> Seq<(int, Seq<u8>)>
    decreases sites.len(),
{
    if sites.len() == 0 || routes.len() != sites.len() {
        seq![]
    } else {
        let rest = picked(sites.drop_last(), routes.drop_last(), want, tid);
        if sites.last().tid == tid && routes.last() == want {
            rest.push((sites.last().position as int, sites.last().key@))
        } else {
            rest
        }
    }
}

pub open spec fn call_views(calls: Seq<VariantCall>) -> Seq<(int, Seq<u8>)> {
    calls.map_values(|c: VariantCall| (c.position as int, c.key@))
}

fn append_picked(
    sites: &Vec<SiteRef>,
    routes: &Vec<Option<u64>>,
    want: Option<u64>,
    tid: u32,
    out: &mut Vec<VariantCall>,
)
    requires
        sites@.len() == routes@.len(),
    ensures
        call_views(final(out)@) == call_views(old(out)@) + picked(sites@, routes@, want, tid),
{
    let mut i: usize = 0;
    while i < sites.len()
        invariant
            sites@.len() == routes@.len(),
            i <= sites@.len(),
            call_views(out@) == call_views(old(out)@) + picked(
                sites@.take(i as int),
                routes@.take(i as int),
                want,
                tid,
            ),
        decreases sites@.len() - i,
    {
        assert(sites@.take(i + 1).drop_last() =~= sites@.take(i as int));
        assert(routes@.take(i + 1).drop_last() =~= routes@.take(i as int));
        let ghost o = out@;
        if sites[i].tid == tid && routes[i] == want {
            out.push(VariantCall { position: sites[i].position, key: copy_range(&sites[i].key, 0, sites[i].key.len()) });
            assert(sites@[i as int].key@.subrange(0, sites@[i as int].key@.len() as int) =~= sites@[i as int].key@);
            assert(call_views(out@) =~= call_views(o).push((sites@[i as int].position as int, sites@[i as int].key@)));
        }
        i = i + 1;
    }
    assert(sites@.take(i as int) =~= sites@);
    assert(routes@.take(i as int) =~= routes@);
}

/// The calls that strain `strain` applies on contig `tid`: the shared bucket
/// first, so that it wins at a position that both hold, then the variants
/// routed to the strain itself.
pub fn strain_calls(sites: &Vec<SiteRef>, routes: &Vec<Option<u64>>, strain: u64, tid: u32) -> (r: Vec<VariantCall>)
    requires
        sites@.len() == routes@.len(),
    ensures
        call_views(r@) == picked(sites@, routes@, None, tid) + picked(
            sites@,
            routes@,
            Some(strain),
            tid,
        ),
{
    let mut r: Vec<VariantCall> = Vec::new();
    append_picked(sites, routes, None, tid, &mut r);
    append_picked(sites, routes, Some(strain), tid, &mut r);
    assert(call_views(Seq::<VariantCall>::empty()) =~= seq![]);
    assert(seq![] + picked(sites@, routes@, None, tid) =~= picked(sites@, routes@, None, tid));
    r
}

/// Number of lines of width `w` that `n` bases fill.
pub open spec fn line_count(n: int, w: int) -> int {
    (n + w - 1) / w
}

/// Line `i` of `t` wrapped at width `w`.
pub open spec fn line_at(t: Seq<u8>, w: int, i: int) -> Seq<u8> {
    if w * i + w <= t.len() {
        t.subrange(w * i, w * i + w)
    } else {
        t.subrange(w * i, t.len() as int)
    }
}

/// The lines of a sequence record: the sequence cut every 60 bases.
pub fn wrap_lines(seq: &Vec<u8>) -> (r: Vec<Vec<u8>>)
    ensures
        r@.len() == line_count(seq@.len() as int, 60),
        forall|i: int| 0 <= i < r@.len() ==> #[trigger] r@[i]@ == line_at(seq@, 60, i),
{
    let n = seq.len();
    let mut r: Vec<Vec<u8>> = Vec::new();
    let mut start: usize = 0;
    while start < n
        invariant
            n == seq@.len(),
            start <= n,
            start < n ==> start == 60 * r@.len(),
            start >= n ==> r@.len() == line_count(n as int, 60),
            start < n ==> r@.len() < line_count(n as int, 60),
            forall|i: int| 0 <= i < r@.len() ==> #[trigger] r@[i]@ == line_at(seq@, 60, i),
        decreases n - start,
    {
        let end: usize = if n - start >= 60 {
            start + 60
        } else {
            n
        };
        let line = copy_range(seq, start, end);
        proof {
            let k = r@.len() as int;
            assert(line@ =~= line_at(seq@, 60, k));
        }
        r.push(line);
        start = end;
    }
    r
}

} // verus!
