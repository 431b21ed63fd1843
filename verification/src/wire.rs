//! The commands that a client sends to the server, framed for the wire.
use crate::resp;
use crate::scan;
use crate::scan::push_all;
use crate::text;
use crate::text::push_dec;
use vstd::prelude::*;

verus! {

/// Appends one bulk string, with its length taken from the payload itself.
pub fn push_bulk(cmd: &mut Vec<u8>, payload: &[u8])
    ensures
        final(cmd)@ == old(cmd)@ + resp::bulk_frame(payload@),
{
    cmd.push(36);
    push_dec(cmd, payload.len() as u64);
    cmd.push(13);
    cmd.push(10);
    push_all(cmd, payload);
    cmd.push(13);
    cmd.push(10);
    proof {
        assert(cmd@ =~= old(cmd)@ + resp::bulk_frame(payload@));
    }
}

proof fn lemma_frames_push(args: Seq<Seq<u8>>, p: Seq<u8>)
    ensures
        resp::bulk_frames(args.push(p)) == resp::bulk_frames(args) + resp::bulk_frame(p),
    decreases args.len(),
{
    let all = args.push(p);
    if args.len() == 0 {
        assert(all.skip(1) =~= Seq::<Seq<u8>>::empty());
        assert(resp::bulk_frames(all.skip(1)) =~= Seq::<u8>::empty());
        assert(all[0] == p);
        assert(resp::bulk_frames(all) =~= resp::bulk_frame(p));
        assert(resp::bulk_frames(args) + resp::bulk_frame(p) =~= resp::bulk_frame(p));
    } else {
        assert(all.skip(1) =~= args.skip(1).push(p));
        lemma_frames_push(args.skip(1), p);
        assert(resp::bulk_frames(all) =~= resp::bulk_frames(args) + resp::bulk_frame(p));
    }
}

/// Frames a command: the number of its arguments, then each of them.
pub fn encode_command(args: &Vec<Vec<u8>>) -> (r: Vec<u8>)
    ensures
        r@ == resp::command_frame(scan::parts(args@)),
{
    let mut out: Vec<u8> = Vec::new();
    out.push(42);
    push_dec(&mut out, args.len() as u64);
    out.push(13);
    out.push(10);
    let ghost head = out@;
    let ghost all = scan::parts(args@);
    let mut i: usize = 0;
    proof {
        assert(head =~= seq![42u8] + text::dec(args@.len()) + resp::crlf());
        assert(all.take(0) =~= Seq::<Seq<u8>>::empty());
        assert(out@ =~= head + resp::bulk_frames(all.take(0)));
    }
    while i < args.len()
        invariant
            i <= args@.len(),
            all == scan::parts(args@),
            out@ == head + resp::bulk_frames(all.take(i as int)),
        decreases args@.len() - i,
    {
        push_bulk(&mut out, args[i].as_slice());
        i = i + 1;
        proof {
            assert(all.take(i as int) =~= all.take(i - 1).push(all[i - 1]));
            lemma_frames_push(all.take(i - 1), all[i - 1]);
            assert(out@ =~= head + resp::bulk_frames(all.take(i as int)));
        }
    }
    proof {
        assert(all.take(i as int) =~= all);
    }
    out
}

/// Appends copies of `src` to an argument list.
fn extend_args(args: &mut Vec<Vec<u8>>, src: &Vec<Vec<u8>>)
    ensures
        scan::parts(final(args)@) == scan::parts(old(args)@) + scan::parts(src@),
{
    let mut i: usize = 0;
    proof {
        assert(scan::parts(src@).take(0) =~= Seq::<Seq<u8>>::empty());
        assert(scan::parts(args@) + Seq::<Seq<u8>>::empty() =~= scan::parts(args@));
    }
    while i < src.len()
        invariant
            i <= src@.len(),
            scan::parts(args@) == scan::parts(old(args)@) + scan::parts(src@).take(i as int),
        decreases src@.len() - i,
    {
        push_arg(args, src[i].as_slice());
        i = i + 1;
        proof {
            assert(scan::parts(args@) =~= scan::parts(old(args)@) + scan::parts(src@).take(
                i as int,
            ));
        }
    }
    proof {
        assert(scan::parts(src@).take(i as int) =~= scan::parts(src@));
    }
}

/// Appends a copy of `a` to an argument list.
fn push_arg(args: &mut Vec<Vec<u8>>, a: &[u8])
    ensures
        scan::parts(final(args)@) == scan::parts(old(args)@).push(a@),
{
    let mut v: Vec<u8> = Vec::new();
    push_all(&mut v, a);
    proof {
        assert(v@ =~= a@);
    }
    args.push(v);
    proof {
        assert(scan::parts(args@) =~= scan::parts(old(args)@).push(a@));
    }
}

/// Appends the digits of `n` to an argument list.
fn push_number(args: &mut Vec<Vec<u8>>, n: u64)
    ensures
        scan::parts(final(args)@) == scan::parts(old(args)@).push(text::dec(n as nat)),
{
    let mut v: Vec<u8> = Vec::new();
    push_dec(&mut v, n);
    proof {
        assert(v@ =~= text::dec(n as nat));
    }
    args.push(v);
    proof {
        assert(scan::parts(args@) =~= scan::parts(old(args)@).push(text::dec(n as nat)));
    }
}

/// `VADD`, an id, and the components of a vector as text.
pub open spec fn vadd_args(id: nat, v: Seq<Seq<u8>>) -> Seq<Seq<u8>> {
    seq![seq![86u8, 65u8, 68u8, 68u8], text::dec(id)] + v
}

/// The command that stores one vector. `v` holds its components as text.
pub fn vadd_cmd(id: u64, v: &Vec<Vec<u8>>) -> (r: Vec<u8>)
    ensures
        r@ == resp::command_frame(vadd_args(id as nat, scan::parts(v@))),
{
    let mut args: Vec<Vec<u8>> = Vec::new();
    args.push(vec![86u8, 65u8, 68u8, 68u8]);
    push_number(&mut args, id);
    extend_args(&mut args, v);
    proof {
        assert(scan::parts(args@) =~= vadd_args(id as nat, scan::parts(v@)));
    }
    encode_command(&args)
}

/// `VADDBATCH`, the `PAR` flag where it is wanted, the dimension, and for each
/// vector its id and its components.
pub open spec fn vaddbatch_args(
    dim: nat,
    ids: Seq<u64>,
    vecs: Seq<Seq<u8>>,
    parallel: bool,
) -> Seq<Seq<u8>> {
    let name = seq![86u8, 65u8, 68u8, 68u8, 66u8, 65u8, 84u8, 67u8, 72u8];
    let head = if parallel {
        seq![name, seq![80u8, 65u8, 82u8], text::dec(dim)]
    } else {
        seq![name, text::dec(dim)]
    };
    head + batch_rows(dim, ids, vecs)
}

/// For each id, the id and then `dim` components.
pub open spec fn batch_rows(dim: nat, ids: Seq<u64>, vecs: Seq<Seq<u8>>) -> Seq<Seq<u8>>
    decreases ids.len(),
{
    if ids.len() == 0 {
        Seq::empty()
    } else {
        let n = (ids.len() - 1) as int;
        batch_rows(dim, ids.drop_last(), vecs) + (seq![text::dec(ids[n] as nat)] + vecs.subrange(
            n * dim,
            n * dim + dim,
        ))
    }
}

/// The command that stores a batch of vectors. `vecs` holds the components of all
/// of them as text, one vector after the other.
pub fn vaddbatch_cmd(dim: usize, ids: &Vec<u64>, vecs: &Vec<Vec<u8>>, parallel: bool) -> (r: Vec<
    u8,
>)
    requires
        ids@.len() * dim <= vecs@.len(),
    ensures
        r@ == resp::command_frame(
            vaddbatch_args(dim as nat, ids@, scan::parts(vecs@), parallel),
        ),
{
    let mut args: Vec<Vec<u8>> = Vec::new();
    args.push(vec![86u8, 65u8, 68u8, 68u8, 66u8, 65u8, 84u8, 67u8, 72u8]);
    if parallel {
        args.push(vec![80u8, 65u8, 82u8]);
    }
    push_number(&mut args, dim as u64);
    let ghost head = scan::parts(args@);
    let ghost texts = scan::parts(vecs@);
    proof {
        let name = seq![86u8, 65u8, 68u8, 68u8, 66u8, 65u8, 84u8, 67u8, 72u8];
        if parallel {
            assert(head =~= seq![name, seq![80u8, 65u8, 82u8], text::dec(dim as nat)]);
        } else {
            assert(head =~= seq![name, text::dec(dim as nat)]);
        }
        assert(ids@.take(0) =~= Seq::<u64>::empty());
        assert(head + Seq::<Seq<u8>>::empty() =~= head);
    }
    let mut i: usize = 0;
    let mut base: usize = 0;
    let total: usize = vecs.len();
    while i < ids.len()
        invariant
            total == vecs@.len(),
            i <= ids@.len(),
            base == i * dim,
            ids@.len() * dim <= vecs@.len(),
            texts == scan::parts(vecs@),
            scan::parts(args@) == head + batch_rows(dim as nat, ids@.take(i as int), texts),
        decreases ids@.len() - i,
    {
        proof {
            assert((i + 1) * dim <= ids@.len() * dim) by (nonlinear_arith)
                requires
                    i < ids@.len(),
                    dim >= 0,
            ;
            assert((i + 1) * dim == i * dim + dim) by (nonlinear_arith);
        }
        push_number(&mut args, ids[i]);
        let ghost row = scan::parts(args@);
        let mut j: usize = 0;
        proof {
            assert(row + texts.subrange(base as int, base as int) =~= row);
        }
        while j < dim
            invariant
                j <= dim,
                total == vecs@.len(),
                base + dim <= vecs@.len(),
                texts == scan::parts(vecs@),
                scan::parts(args@) == row + texts.subrange(base as int, base + j),
            decreases dim - j,
        {
            push_arg(&mut args, vecs[base + j].as_slice());
            j = j + 1;
            proof {
                assert(scan::parts(args@) =~= row + texts.subrange(base as int, base + j));
            }
        }
        proof {
            let t = ids@.take(i + 1);
            assert(t.drop_last() =~= ids@.take(i as int));
            assert(scan::parts(args@) =~= head + batch_rows(dim as nat, t, texts));
        }
        base = base + dim;
        i = i + 1;
    }
    proof {
        assert(ids@.take(i as int) =~= ids@);
    }
    encode_command(&args)
}

pub open spec fn vsearch_word() -> Seq<u8> {
    seq![86u8, 83u8, 69u8, 65u8, 82u8, 67u8, 72u8]
}

/// The command that asks for the ten nearest vectors. `q` holds the components of
/// the query as text.
pub fn vsearch_cmd(q: &Vec<Vec<u8>>) -> (r: Vec<u8>)
    ensures
        r@ == resp::command_frame(
            seq![vsearch_word(), seq![49u8, 48u8]] + scan::parts(q@),
        ),
{
    let mut args: Vec<Vec<u8>> = Vec::new();
    args.push(vec![86u8, 83u8, 69u8, 65u8, 82u8, 67u8, 72u8]);
    args.push(vec![49u8, 48u8]);
    extend_args(&mut args, q);
    proof {
        assert(scan::parts(args@) =~= seq![vsearch_word(), seq![49u8, 48u8]] + scan::parts(q@));
    }
    encode_command(&args)
}

/// The command that asks for the `k` nearest vectors along the access path that
/// the flags name.
pub fn vsearch_flags_cmd(k: usize, flags: &Vec<Vec<u8>>, q: &Vec<Vec<u8>>) -> (r: Vec<u8>)
    ensures
        r@ == resp::command_frame(
            seq![vsearch_word(), text::dec(k as nat)] + scan::parts(flags@) + scan::parts(q@),
        ),
{
    let mut args: Vec<Vec<u8>> = Vec::new();
    args.push(vec![86u8, 83u8, 69u8, 65u8, 82u8, 67u8, 72u8]);
    push_number(&mut args, k as u64);
    proof {
        assert(scan::parts(args@) =~= seq![vsearch_word(), text::dec(k as nat)]);
    }
    extend_args(&mut args, flags);
    extend_args(&mut args, q);
    encode_command(&args)
}

/// The first `k` of `ids`; where there are fewer, the last one again and again, or
/// 0 where there is none.
pub open spec fn padded_ids(ids: Seq<u64>, k: nat) -> Seq<u64> {
    Seq::new(
        k,
        |i: int|
            if i < ids.len() {
                ids[i]
            } else if ids.len() > 0 {
                ids.last()
            } else {
                0
            },
    )
}

/// Brings a list of result ids to exactly `k` entries.
pub fn pad_ids(ids: &Vec<u64>, k: usize) -> (r: Vec<u64>)
    ensures
        r@ == padded_ids(ids@, k as nat),
{
    let fill: u64 = if ids.len() > 0 { ids[ids.len() - 1] } else { 0 };
    let mut out: Vec<u64> = Vec::new();
    let mut i: usize = 0;
    while i < k
        invariant
            i <= k,
            fill == (if ids@.len() > 0 { ids@.last() } else { 0 }),
            out@ == padded_ids(ids@, i as nat),
        decreases k - i,
    {
        out.push(if i < ids.len() { ids[i] } else { fill });
        i = i + 1;
        proof {
            assert(out@ =~= padded_ids(ids@, i as nat));
        }
    }
    out
}

pub open spec fn vcalibrate_word() -> Seq<u8> {
    seq![86u8, 67u8, 65u8, 76u8, 73u8, 66u8, 82u8, 65u8, 84u8, 69u8]
}

/// Numbers as arguments.
pub open spec fn number_args(ids: Seq<u64>) -> Seq<Seq<u8>> {
    Seq::new(ids.len(), |i: int| text::dec(ids[i] as nat))
}

/// `VCALIBRATE`, the sizes, the components of all queries, and the true neighbours of each.
pub open spec fn calibrate_args(
    dim: nat,
    queries: nat,
    k: nat,
    comps: Seq<Seq<u8>>,
    truth: Seq<u64>,
) -> Seq<Seq<u8>> {
    seq![vcalibrate_word(), text::dec(dim), text::dec(queries), text::dec(k)] + comps
        + number_args(truth)
}

/// The command that calibrates the search effort.
pub fn calibrate_cmd(
    dim: usize,
    queries: usize,
    k: usize,
    comps: &Vec<Vec<u8>>,
    truth: &Vec<u64>,
) -> (r: Vec<u8>)
    ensures
        r@ == resp::command_frame(
            calibrate_args(dim as nat, queries as nat, k as nat, scan::parts(comps@), truth@),
        ),
{
    let mut args: Vec<Vec<u8>> = Vec::new();
    let word: Vec<u8> = vec![86u8, 67u8, 65u8, 76u8, 73u8, 66u8, 82u8, 65u8, 84u8, 69u8];
    assert(word@ =~= vcalibrate_word());
    push_arg(&mut args, word.as_slice());
    push_number(&mut args, dim as u64);
    push_number(&mut args, queries as u64);
    push_number(&mut args, k as u64);
    let ghost head = seq![
        vcalibrate_word(),
        text::dec(dim as nat),
        text::dec(queries as nat),
        text::dec(k as nat),
    ];
    proof {
        assert(scan::parts(args@) =~= head);
    }
    extend_args(&mut args, comps);
    let ghost front = head + scan::parts(comps@);
    let mut i: usize = 0;
    proof {
        assert(front =~= front + number_args(truth@).take(0));
    }
    while i < truth.len()
        invariant
            i <= truth@.len(),
            scan::parts(args@) == front + number_args(truth@).take(i as int),
        decreases truth@.len() - i,
    {
        push_number(&mut args, truth[i]);
        i = i + 1;
        proof {
            assert(number_args(truth@).take(i as int) =~= number_args(truth@).take(i - 1).push(
                text::dec(truth@[i - 1] as nat),
            ));
            assert(scan::parts(args@) =~= front + number_args(truth@).take(i as int));
        }
    }
    proof {
        assert(number_args(truth@).take(i as int) =~= number_args(truth@));
    }
    encode_command(&args)
}

proof fn lemma_batch_rows(dim: nat, ids: Seq<u64>, vecs: Seq<Seq<u8>>, i: int, j: int)
    requires
        ids.len() * dim <= vecs.len(),
        0 <= i < ids.len(),
        0 <= j < dim,
    ensures
        batch_rows(dim, ids, vecs).len() == ids.len() * (dim + 1),
        0 <= i * (dim + 1) && i * (dim + 1) + dim < ids.len() * (dim + 1),
        batch_rows(dim, ids, vecs)[i * (dim + 1)] == text::dec(ids[i] as nat),
        batch_rows(dim, ids, vecs)[i * (dim + 1) + 1 + j] == vecs[i * dim + j],
    decreases ids.len(),
{
    let n = (ids.len() - 1) as int;
    let w = (dim + 1) as int;
    let front = ids.drop_last();
    let len = ids.len() as int;
    let d = dim as int;
    assert(0 <= i * w && i * w + d < len * w && n * w + w == len * w && n * d + d == len * d && 0
        <= n * d) by (nonlinear_arith)
        requires
            0 <= i < len,
            w == d + 1,
            d >= 0,
            n == len - 1,
    ;
    lemma_batch_len(dim, front, vecs);
    if i < n {
        lemma_batch_rows(dim, front, vecs, i, j);
    } else {
        assert(i == n);
    }
}

proof fn lemma_batch_len(dim: nat, ids: Seq<u64>, vecs: Seq<Seq<u8>>)
    requires
        ids.len() * dim <= vecs.len(),
    ensures
        batch_rows(dim, ids, vecs).len() == ids.len() * (dim + 1),
    decreases ids.len(),
{
    let (len, d) = (ids.len() as int, dim as int);
    if len > 0 {
        assert((len - 1) * (d + 1) + (d + 1) == len * (d + 1) && (len - 1) * d + d == len * d && 0
            <= (len - 1) * d) by (nonlinear_arith)
            requires
                len > 0,
                d >= 0,
        ;
        lemma_batch_len(dim, ids.drop_last(), vecs);
    } else {
        assert(0 * (d + 1) == 0) by (nonlinear_arith);
    }
}

/// A batch carries each vector behind its own id: its components follow the id in their order,
/// and the next id follows them.
pub proof fn law_batch_carries_every_vector(
    dim: nat,
    ids: Seq<u64>,
    vecs: Seq<Seq<u8>>,
    parallel: bool,
    i: int,
    j: int,
)
    requires
        ids.len() * dim <= vecs.len(),
        0 <= i < ids.len(),
        0 <= j < dim,
    ensures
        ({
            let args = vaddbatch_args(dim, ids, vecs, parallel);
            let head: int = if parallel {
                3
            } else {
                2
            };
            &&& args.len() == head + ids.len() * (dim + 1)
            &&& args[head + i * (dim + 1)] == text::dec(ids[i] as nat)
            &&& args[head + (i * (dim + 1) + 1 + j)] == vecs[i * dim + j]
            &&& args[head - 1] == text::dec(dim)
        }),
{
    lemma_batch_rows(dim, ids, vecs, i, j);
}

/// A word as text.
pub open spec fn spelt(w: Seq<u8>) -> Seq<char> {
    Seq::new(w.len(), |i: int| w[i] as char)
}

/// The commands are named as the server knows them.
pub proof fn law_commands_are_named(
    id: nat,
    v: Seq<Seq<u8>>,
    dim: nat,
    ids: Seq<u64>,
    parallel: bool,
)
    ensures
        spelt(vadd_args(id, v)[0]) == "VADD"@,
        vadd_args(id, v)[1] == text::dec(id),
        vadd_args(id, v).skip(2) == v,
        spelt(vaddbatch_args(dim, ids, v, parallel)[0]) == "VADDBATCH"@,
        parallel ==> spelt(vaddbatch_args(dim, ids, v, parallel)[1]) == "PAR"@,
        spelt(vsearch_word()) == "VSEARCH"@,
        spelt(vcalibrate_word()) == "VCALIBRATE"@,
{
    reveal_strlit("VADD");
    reveal_strlit("VADDBATCH");
    reveal_strlit("PAR");
    reveal_strlit("VSEARCH");
    reveal_strlit("VCALIBRATE");
    assert(spelt(vadd_args(id, v)[0]) =~= "VADD"@);
    assert(vadd_args(id, v).skip(2) =~= v);
    assert(spelt(vaddbatch_args(dim, ids, v, parallel)[0]) =~= "VADDBATCH"@);
    if parallel {
        assert(spelt(vaddbatch_args(dim, ids, v, parallel)[1]) =~= "PAR"@);
    }
    assert(spelt(vsearch_word()) =~= "VSEARCH"@);
    assert(spelt(vcalibrate_word()) =~= "VCALIBRATE"@);
}

/// A padded list has the length that is asked for, begins with what there was, and holds nothing
/// that was not there, where there was anything.
pub proof fn law_padding_adds_no_id(ids: Seq<u64>, k: nat)
    ensures
        padded_ids(ids, k).len() == k,
        forall|i: int| 0 <= i < k && i < ids.len() ==> #[trigger] padded_ids(ids, k)[i] == ids[i],
        ids.len() > 0 ==> forall|i: int|
            ids.len() <= i < k ==> #[trigger] padded_ids(ids, k)[i] == ids.last(),
        ids.len() == 0 ==> forall|i: int| 0 <= i < k ==> #[trigger] padded_ids(ids, k)[i] == 0,
{
}

/// A calibration says its sizes, then the components of its queries, then their true neighbours, each
/// in its order.
pub proof fn law_calibration_carries_queries_and_truth(
    dim: nat,
    queries: nat,
    k: nat,
    comps: Seq<Seq<u8>>,
    truth: Seq<u64>,
    i: int,
    j: int,
)
    requires
        0 <= i < comps.len(),
        0 <= j < truth.len(),
    ensures
        ({
            let a = calibrate_args(dim, queries, k, comps, truth);
            &&& a.len() == 4 + comps.len() + truth.len()
            &&& a[1] == text::dec(dim) && a[2] == text::dec(queries) && a[3] == text::dec(k)
            &&& a[4 + i] == comps[i]
            &&& a[4 + comps.len() + j] == text::dec(truth[j] as nat)
        }),
{
}

} // verus!
