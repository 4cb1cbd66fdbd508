//! The fragmentation engine: how the first handshake record is cut into
//! segments, and with which time-to-live each segment leaves.

use vstd::prelude::*;
use vstd::slice::slice_to_vec;
use crate::sni::{SniLocation, edit_applies, edited, esni_edit, is_edit_target, locate_sni, location_of};
use crate::splitter::{carve, clamped};

verus! {

/// How a hello is cut: lengths carved before the host name is reached, lengths
/// carved from the host name on, the short time-to-live, and whether the
/// case edit of the host name is made.
#[derive(Debug)]
pub struct FragmentPlan {
    pub body: Vec<usize>,
    pub sni: Vec<usize>,
    pub fake_ttl: u8,
    pub esni: bool,
}

/// Carves each length of `lens`, in order, from the front of `buf`; gives the
/// rest and the pieces in the order they were carved.
pub open spec fn carve_all(buf: Seq<u8>, lens: Seq<usize>) -> (Seq<u8>, Seq<Seq<u8>>)
    decreases lens.len(),
{
    if lens.len() == 0 {
        (buf, Seq::empty())
    } else {
        let (rest, pieces) = carve_all(buf, lens.drop_last());
        let k = clamped(lens.last() as int, rest.len() as int);
        (rest.subrange(k, rest.len() as int), pieces.push(rest.subrange(0, k)))
    }
}

/// The pieces of `hello` and the rest: first the body lengths; then, with a
/// host name at `start`, one piece up to `start` and the host-name lengths.
pub open spec fn fragments_of(hello: Seq<u8>, body: Seq<usize>, sni: Seq<usize>, start: Option<usize>) -> (
    Seq<u8>,
    Seq<Seq<u8>>,
) {
    let (rest, pieces) = carve_all(hello, body);
    match start {
        None => (rest, pieces),
        Some(s) => {
            let consumed = hello.len() - rest.len();
            let k = clamped(if s >= consumed { s - consumed } else { 0 }, rest.len() as int);
            let (rest2, more) = carve_all(rest.subrange(k, rest.len() as int), sni);
            (rest2, pieces.push(rest.subrange(0, k)) + more)
        },
    }
}

/// The pieces laid end to end.
pub open spec fn concat(pieces: Seq<Seq<u8>>) -> Seq<u8>
    decreases pieces.len(),
{
    if pieces.len() == 0 {
        Seq::empty()
    } else {
        concat(pieces.drop_last()) + pieces.last()
    }
}

proof fn lemma_concat_append(a: Seq<Seq<u8>>, b: Seq<Seq<u8>>)
    ensures
        concat(a + b) == concat(a) + concat(b),
    decreases b.len(),
{
    if b.len() == 0 {
        assert(a + b =~= a);
        assert(concat(a) + concat(b) =~= concat(a));
    } else {
        lemma_concat_append(a, b.drop_last());
        assert((a + b).drop_last() =~= a + b.drop_last());
        assert(concat(a) + concat(b) =~= concat(a) + concat(b.drop_last()) + b.last());
    }
}

proof fn lemma_carve_all_reassembles(buf: Seq<u8>, lens: Seq<usize>)
    ensures
        concat(carve_all(buf, lens).1) + carve_all(buf, lens).0 == buf,
        carve_all(buf, lens).1.len() == lens.len(),
    decreases lens.len(),
{
    if lens.len() > 0 {
        lemma_carve_all_reassembles(buf, lens.drop_last());
        let (rest, pieces) = carve_all(buf, lens.drop_last());
        let k = clamped(lens.last() as int, rest.len() as int);
        assert(pieces.push(rest.subrange(0, k)).drop_last() =~= pieces);
        assert(concat(pieces) + rest.subrange(0, k) + rest.subrange(k, rest.len() as int) =~= concat(
            pieces,
        ) + rest);
    }
}

/// Carving never loses, adds nor reorders a byte: the pieces in the order
/// they were carved, followed by the rest, are the buffer they came from.
pub proof fn lemma_fragments_reassemble(
    hello: Seq<u8>,
    body: Seq<usize>,
    sni: Seq<usize>,
    start: Option<usize>,
)
    ensures
        concat(fragments_of(hello, body, sni, start).1) + fragments_of(hello, body, sni, start).0
            == hello,
{
    lemma_carve_all_reassembles(hello, body);
    let (rest, pieces) = carve_all(hello, body);
    if let Some(s) = start {
        let consumed = hello.len() - rest.len();
        let k = clamped(if s >= consumed { s - consumed } else { 0 }, rest.len() as int);
        let tail = rest.subrange(k, rest.len() as int);
        lemma_carve_all_reassembles(tail, sni);
        let (rest2, more) = carve_all(tail, sni);
        lemma_concat_append(pieces.push(rest.subrange(0, k)), more);
        assert(pieces.push(rest.subrange(0, k)).drop_last() =~= pieces);
        assert(rest.subrange(0, k) + tail =~= rest);
        assert(concat(pieces) + rest.subrange(0, k) + concat(more) + rest2 =~= concat(pieces)
            + rest.subrange(0, k) + (concat(more) + rest2));
    }
}

/// What a list of byte vectors holds.
pub open spec fn views(v: Seq<Vec<u8>>) -> Seq<Seq<u8>> {
    v.map_values(|x: Vec<u8>| x@)
}

/// Carves `lens` in order from the front of `buf`, appending the pieces to
/// `pieces`; returns the rest.
fn carve_list<'a>(buf: &'a [u8], lens: &Vec<usize>, pieces: &mut Vec<Vec<u8>>) -> (rest: &'a [u8])
    ensures
        rest@ == carve_all(buf@, lens@).0,
        views(final(pieces)@) == views(old(pieces)@) + carve_all(buf@, lens@).1,
{
    let mut rest = buf;
    let ghost start_pieces = views(pieces@);
    let mut i: usize = 0;
    while i < lens.len()
        invariant
            0 <= i <= lens@.len(),
            rest@ == carve_all(buf@, lens@.subrange(0, i as int)).0,
            views(pieces@) == start_pieces + carve_all(buf@, lens@.subrange(0, i as int)).1,
        decreases lens@.len() - i,
    {
        let ghost prev = views(pieces@);
        let (r, piece) = carve(rest, lens[i]);
        let v = slice_to_vec(piece);
        proof {
            let next = lens@.subrange(0, i + 1);
            assert(next.drop_last() =~= lens@.subrange(0, i as int));
            assert(next.last() == lens@[i as int]);
        }
        pieces.push(v);
        rest = r;
        i = i + 1;
        proof {
            assert(views(pieces@) =~= prev.push(v@));
            assert(views(pieces@) =~= start_pieces + carve_all(buf@, lens@.subrange(0, i as int)).1);
        }
    }
    assert(lens@.subrange(0, i as int) =~= lens@);
    rest
}

/// Cuts `hello` into the pieces of `fragments_of`, for the host name at
/// `start` if one was found; returns the pieces and the rest.
pub fn carve_fragments(hello: &[u8], body: &Vec<usize>, sni: &Vec<usize>, start: Option<usize>) -> (r: (
    Vec<Vec<u8>>,
    Vec<u8>,
))
    ensures
        views(r.0@) == fragments_of(hello@, body@, sni@, start).1,
        r.1@ == fragments_of(hello@, body@, sni@, start).0,
{
    let mut pieces: Vec<Vec<u8>> = Vec::new();
    let rest = carve_list(hello, body, &mut pieces);
    assert(views(pieces@) =~= carve_all(hello@, body@).1);
    proof {
        lemma_carve_all_reassembles(hello@, body@);
    }
    match start {
        None => {
            let out = slice_to_vec(rest);
            (pieces, out)
        },
        Some(s) => {
            let consumed = hello.len() - rest.len();
            let k: usize = if s >= consumed {
                s - consumed
            } else {
                0
            };
            let (tail, piece) = carve(rest, k);
            pieces.push(slice_to_vec(piece));
            let rest2 = carve_list(tail, sni, &mut pieces);
            let out = slice_to_vec(rest2);
            (pieces, out)
        },
    }
}

/// One step of sending the hello to the upstream socket.
#[derive(Debug)]
pub enum SocketOp {
    /// Turns send coalescing off (`true`) or back on (`false`).
    NoDelay(bool),
    /// Sets the time-to-live of the packets that follow.
    Ttl(u32),
    /// Writes these bytes.
    Send(Vec<u8>),
}

/// A `SocketOp` with its bytes as a sequence.
pub enum OpModel {
    NoDelay(bool),
    Ttl(u32),
    Send(Seq<u8>),
}

impl View for SocketOp {
    type V = OpModel;

    open spec fn view(&self) -> OpModel {
        match self {
            SocketOp::NoDelay(b) => OpModel::NoDelay(*b),
            SocketOp::Ttl(t) => OpModel::Ttl(*t),
            SocketOp::Send(d) => OpModel::Send(d@),
        }
    }
}

/// What a list of socket steps does.
pub open spec fn ops_model(ops: Seq<SocketOp>) -> Seq<OpModel> {
    ops.map_values(|o: SocketOp| o@)
}

/// The time-to-live of the fragment at 0-based position `i`: the short one
/// for the first, third, fifth fragment and so on, the original for the others.
pub open spec fn ttl_at(i: int, fake: u32, original: u32) -> u32 {
    if i % 2 == 0 {
        fake
    } else {
        original
    }
}

/// Each fragment, in order, preceded by the time-to-live it leaves with.
pub open spec fn fragment_ops(frags: Seq<Seq<u8>>, fake: u32, original: u32) -> Seq<OpModel>
    decreases frags.len(),
{
    if frags.len() == 0 {
        Seq::empty()
    } else {
        fragment_ops(frags.drop_last(), fake, original) + seq![
            OpModel::Ttl(ttl_at(frags.len() - 1, fake, original)),
            OpModel::Send(frags.last()),
        ]
    }
}

/// The whole sending phase: coalescing off, the fragments with alternating
/// time-to-live, the rest at the original time-to-live, then coalescing on
/// and the original time-to-live restored.
pub open spec fn transmission(frags: Seq<Seq<u8>>, rest: Seq<u8>, fake: u32, original: u32) -> Seq<
    OpModel,
> {
    seq![OpModel::NoDelay(true)] + fragment_ops(frags, fake, original) + seq![
        OpModel::Ttl(original),
        OpModel::Send(rest),
        OpModel::NoDelay(false),
        OpModel::Ttl(original),
    ]
}

/// The bytes that a list of steps writes, in order.
pub open spec fn sent_bytes(ops: Seq<OpModel>) -> Seq<u8>
    decreases ops.len(),
{
    if ops.len() == 0 {
        Seq::empty()
    } else {
        sent_bytes(ops.drop_last()) + match ops.last() {
            OpModel::Send(d) => d,
            _ => Seq::empty(),
        }
    }
}

/// Builds the steps of `transmission` for these fragments and rest.
pub fn transmission_ops(frags: &Vec<Vec<u8>>, rest: &Vec<u8>, fake_ttl: u32, original_ttl: u32) -> (ops: Vec<SocketOp>)
    ensures
        ops_model(ops@) == transmission(views(frags@), rest@, fake_ttl, original_ttl),
{
    let mut ops: Vec<SocketOp> = Vec::new();
    ops.push(SocketOp::NoDelay(true));
    let mut i: usize = 0;
    while i < frags.len()
        invariant
            0 <= i <= frags@.len(),
            ops_model(ops@) == seq![OpModel::NoDelay(true)] + fragment_ops(
                views(frags@).subrange(0, i as int),
                fake_ttl,
                original_ttl,
            ),
        decreases frags@.len() - i,
    {
        let ghost prev = ops_model(ops@);
        let ttl: u32 = if i % 2 == 0 {
            fake_ttl
        } else {
            original_ttl
        };
        ops.push(SocketOp::Ttl(ttl));
        ops.push(SocketOp::Send(slice_to_vec(frags[i].as_slice())));
        proof {
            let next = views(frags@).subrange(0, i + 1);
            assert(next.drop_last() =~= views(frags@).subrange(0, i as int));
            assert(ops_model(ops@) =~= prev + seq![
                OpModel::Ttl(ttl_at(i as int, fake_ttl, original_ttl)),
                OpModel::Send(next.last()),
            ]);
        }
        i = i + 1;
    }
    assert(views(frags@).subrange(0, i as int) =~= views(frags@));
    ops.push(SocketOp::Ttl(original_ttl));
    ops.push(SocketOp::Send(slice_to_vec(rest.as_slice())));
    ops.push(SocketOp::NoDelay(false));
    ops.push(SocketOp::Ttl(original_ttl));
    assert(ops_model(ops@) =~= transmission(views(frags@), rest@, fake_ttl, original_ttl));
    ops
}

/// The hello as it is sent: with the case edit at `loc` when the plan asks
/// for it and a name was found.
pub open spec fn prepared(hello: Seq<u8>, esni: bool, loc: Option<SniLocation>) -> Seq<u8> {
    match loc {
        Some(l) => if esni {
            edited(hello, l)
        } else {
            hello
        },
        None => hello,
    }
}

/// Where the host name starts, if one was found.
pub open spec fn start_of(loc: Option<SniLocation>) -> Option<usize> {
    match loc {
        Some(l) => Some(l.start),
        None => None,
    }
}

/// The steps that send `hello` under `plan`, with the host name at `loc`.
pub open spec fn hello_ops(hello: Seq<u8>, plan: FragmentPlan, original_ttl: u32, loc: Option<SniLocation>) -> Seq<
    OpModel,
> {
    let buf = prepared(hello, plan.esni, loc);
    let (rest, frags) = fragments_of(buf, plan.body@, plan.sni@, start_of(loc));
    transmission(frags, rest, plan.fake_ttl as u32, original_ttl)
}

/// The steps that send `hello` to the upstream under `plan`, for a host
/// name found at `loc` (or none): the case edit where asked for, the
/// fragments with alternating time-to-live, the rest, and the socket options
/// put back.
pub fn plan_hello_at(hello: &[u8], plan: &FragmentPlan, original_ttl: u32, loc: Option<SniLocation>) -> (ops: Vec<SocketOp>)
    ensures
        ops_model(ops@) == hello_ops(hello@, *plan, original_ttl, loc),
{
    let mut buf = slice_to_vec(hello);
    let mut start: Option<usize> = None;
    if let Some(l) = loc {
        if plan.esni {
            esni_edit(&mut buf, l);
        }
        start = Some(l.start);
    }
    let (frags, rest) = carve_fragments(buf.as_slice(), &plan.body, &plan.sni, start);
    transmission_ops(&frags, &rest, plan.fake_ttl as u32, original_ttl)
}

/// The steps that send `hello` to the upstream under `plan`, with the host
/// name located in `hello` itself.
pub fn plan_hello(hello: &[u8], plan: &FragmentPlan, original_ttl: u32) -> (ops: Vec<SocketOp>)
    ensures
        ops_model(ops@) == hello_ops(hello@, *plan, original_ttl, location_of(hello@)),
{
    let loc = locate_sni(hello);
    plan_hello_at(hello, plan, original_ttl, loc)
}

proof fn lemma_sent_bytes_append(a: Seq<OpModel>, b: Seq<OpModel>)
    ensures
        sent_bytes(a + b) == sent_bytes(a) + sent_bytes(b),
    decreases b.len(),
{
    if b.len() == 0 {
        assert(a + b =~= a);
        assert(sent_bytes(a) + sent_bytes(b) =~= sent_bytes(a));
    } else {
        lemma_sent_bytes_append(a, b.drop_last());
        assert((a + b).drop_last() =~= a + b.drop_last());
        let tail = match b.last() {
            OpModel::Send(d) => d,
            _ => Seq::<u8>::empty(),
        };
        assert(sent_bytes(a) + sent_bytes(b) =~= sent_bytes(a) + sent_bytes(b.drop_last()) + tail);
    }
}

proof fn lemma_fragment_ops_send(frags: Seq<Seq<u8>>, fake: u32, original: u32)
    ensures
        sent_bytes(fragment_ops(frags, fake, original)) == concat(frags),
    decreases frags.len(),
{
    if frags.len() > 0 {
        lemma_fragment_ops_send(frags.drop_last(), fake, original);
        let pair = seq![OpModel::Ttl(ttl_at(frags.len() - 1, fake, original)), OpModel::Send(frags.last())];
        lemma_sent_bytes_append(fragment_ops(frags.drop_last(), fake, original), pair);
        assert(pair.drop_last().drop_last() =~= Seq::<OpModel>::empty());
        assert(sent_bytes(pair.drop_last()) =~= sent_bytes(pair.drop_last().drop_last()));
        assert(sent_bytes(pair) =~= frags.last());
    }
}

/// The bytes written in the sending phase, in order, are the fragments in the
/// order they were carved, followed by the rest.
pub proof fn lemma_transmission_sends(frags: Seq<Seq<u8>>, rest: Seq<u8>, fake: u32, original: u32)
    ensures
        sent_bytes(transmission(frags, rest, fake, original)) == concat(frags) + rest,
{
    let head = seq![OpModel::NoDelay(true)];
    let mid = fragment_ops(frags, fake, original);
    let tail = seq![OpModel::Ttl(original), OpModel::Send(rest), OpModel::NoDelay(false), OpModel::Ttl(original)];
    lemma_fragment_ops_send(frags, fake, original);
    lemma_sent_bytes_append(head + mid, tail);
    lemma_sent_bytes_append(head, mid);
    reveal_with_fuel(sent_bytes, 5);
    assert(head.drop_last() =~= Seq::<OpModel>::empty());
    assert(sent_bytes(head) =~= Seq::<u8>::empty());
    assert(tail.drop_last() =~= seq![OpModel::Ttl(original), OpModel::Send(rest), OpModel::NoDelay(false)]);
    assert(tail.drop_last().drop_last() =~= seq![OpModel::Ttl(original), OpModel::Send(rest)]);
    assert(tail.drop_last().drop_last().drop_last() =~= seq![OpModel::Ttl(original)]);
    assert(tail.drop_last().drop_last().drop_last().drop_last() =~= Seq::<OpModel>::empty());
    assert(sent_bytes(tail) =~= rest);
    assert(sent_bytes(head + mid + tail) =~= concat(frags) + rest);
}

/// Whatever the plan and the hello, the bytes written to the upstream, in
/// order, are the hello itself, except where the case edit toggled a letter:
/// only when the edit is on, a name was found that it applies to, and only at
/// the name's first, fifth and last byte.
pub proof fn lemma_hello_reassembles(hello: Seq<u8>, plan: FragmentPlan, original_ttl: u32, loc: Option<SniLocation>)
    ensures
        sent_bytes(hello_ops(hello, plan, original_ttl, loc)).len() == hello.len(),
        forall|i: int|
            0 <= i < hello.len() && #[trigger] sent_bytes(hello_ops(hello, plan, original_ttl, loc))[i]
                != hello[i] ==> plan.esni && loc is Some && edit_applies(loc->0, hello.len() as int)
                && is_edit_target(loc->0, i),
{
    let buf = prepared(hello, plan.esni, loc);
    let (rest, frags) = fragments_of(buf, plan.body@, plan.sni@, start_of(loc));
    lemma_fragments_reassemble(buf, plan.body@, plan.sni@, start_of(loc));
    lemma_transmission_sends(frags, rest, plan.fake_ttl as u32, original_ttl);
}

proof fn lemma_fragment_ops_shape(frags: Seq<Seq<u8>>, fake: u32, original: u32)
    ensures
        fragment_ops(frags, fake, original).len() == 2 * frags.len(),
        forall|i: int|
            0 <= i < frags.len() ==> #[trigger] fragment_ops(frags, fake, original)[2 * i] == OpModel::Ttl(
                ttl_at(i, fake, original),
            ) && fragment_ops(frags, fake, original)[2 * i + 1] == OpModel::Send(frags[i]),
    decreases frags.len(),
{
    if frags.len() > 0 {
        lemma_fragment_ops_shape(frags.drop_last(), fake, original);
        let prev = fragment_ops(frags.drop_last(), fake, original);
        let cur = fragment_ops(frags, fake, original);
        assert forall|i: int| 0 <= i < frags.len() implies #[trigger] cur[2 * i] == OpModel::Ttl(
            ttl_at(i, fake, original),
        ) && cur[2 * i + 1] == OpModel::Send(frags[i]) by {
            if i < frags.len() - 1 {
                assert(cur[2 * i] == prev[2 * i]);
                assert(cur[2 * i + 1] == prev[2 * i + 1]);
            }
        }
    }
}

/// In the sending phase, coalescing goes off first; the fragment at 0-based
/// position `i` leaves with the short time-to-live when `i` is even and with
/// the original one when it is odd; the rest leaves with the original one;
/// then coalescing comes back and the original time-to-live is set again,
/// also when there are no fragments.
pub proof fn lemma_ttl_alternates(frags: Seq<Seq<u8>>, rest: Seq<u8>, fake: u32, original: u32)
    ensures
        transmission(frags, rest, fake, original).len() == 2 * frags.len() + 5,
        transmission(frags, rest, fake, original)[0] == OpModel::NoDelay(true),
        forall|i: int|
            0 <= i < frags.len() ==> #[trigger] transmission(frags, rest, fake, original)[2 * i + 1]
                == OpModel::Ttl(if i % 2 == 0 { fake } else { original }) && transmission(
                frags,
                rest,
                fake,
                original,
            )[2 * i + 2] == OpModel::Send(frags[i]),
        transmission(frags, rest, fake, original)[2 * frags.len() as int + 1] == OpModel::Ttl(original),
        transmission(frags, rest, fake, original)[2 * frags.len() as int + 2] == OpModel::Send(rest),
        transmission(frags, rest, fake, original)[2 * frags.len() as int + 3] == OpModel::NoDelay(false),
        transmission(frags, rest, fake, original)[2 * frags.len() as int + 4] == OpModel::Ttl(original),
{
    lemma_fragment_ops_shape(frags, fake, original);
    let t = transmission(frags, rest, fake, original);
    let mid = fragment_ops(frags, fake, original);
    assert forall|i: int| 0 <= i < frags.len() implies #[trigger] t[2 * i + 1] == OpModel::Ttl(
        if i % 2 == 0 { fake } else { original },
    ) && t[2 * i + 2] == OpModel::Send(frags[i]) by {
        assert(t[2 * i + 1] == mid[2 * i]);
        assert(t[2 * i + 2] == mid[2 * i + 1]);
    }
}

} // verus!
