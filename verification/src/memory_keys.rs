//! The keys and records of agent memory.
use crate::codec;
use crate::codec::{push_be, push_le, read_le};
use crate::scan::{copy_range, push_all};
use crate::text::utf8_text;
use vstd::prelude::*;
use vstd::utf8::*;

verus! {

/// `head`, then two texts with a colon between them.
pub open spec fn two_part(head: Seq<u8>, a: Seq<char>, b: Seq<char>) -> Seq<u8> {
    head + encode_utf8(a) + seq![58u8] + encode_utf8(b)
}

/// `mem:wm:`
pub open spec fn wm_head() -> Seq<u8> {
    seq![109u8, 101u8, 109u8, 58u8, 119u8, 109u8, 58u8]
}

/// `mem:wmx:`
pub open spec fn wmx_head() -> Seq<u8> {
    seq![109u8, 101u8, 109u8, 58u8, 119u8, 109u8, 120u8, 58u8]
}

/// `mem:ltm:`
pub open spec fn ltm_head() -> Seq<u8> {
    seq![109u8, 101u8, 109u8, 58u8, 108u8, 116u8, 109u8, 58u8]
}

/// `mem:meta:`
pub open spec fn meta_head() -> Seq<u8> {
    seq![109u8, 101u8, 109u8, 58u8, 109u8, 101u8, 116u8, 97u8, 58u8]
}

/// `mem:ep:`
pub open spec fn ep_head() -> Seq<u8> {
    seq![109u8, 101u8, 109u8, 58u8, 101u8, 112u8, 58u8]
}

/// `mem:kw:`
pub open spec fn kw_head() -> Seq<u8> {
    seq![109u8, 101u8, 109u8, 58u8, 107u8, 119u8, 58u8]
}

/// `mem:edge:`
pub open spec fn edge_head() -> Seq<u8> {
    seq![109u8, 101u8, 109u8, 58u8, 101u8, 100u8, 103u8, 101u8, 58u8]
}

/// `mem:redge:`
pub open spec fn redge_head() -> Seq<u8> {
    seq![109u8, 101u8, 109u8, 58u8, 114u8, 101u8, 100u8, 103u8, 101u8, 58u8]
}

/// `mem:proc:`
pub open spec fn proc_head() -> Seq<u8> {
    seq![109u8, 101u8, 109u8, 58u8, 112u8, 114u8, 111u8, 99u8, 58u8]
}

pub open spec fn id_bytes(id: u64) -> Seq<u8> {
    codec::be(id as nat, 8)
}

/// `head`, a text, a colon, and a number.
pub open spec fn text_id(head: Seq<u8>, t: Seq<char>, id: u64) -> Seq<u8> {
    head + encode_utf8(t) + seq![58u8] + id_bytes(id)
}

/// `head`, a number, a colon, a text, a colon, and a number.
pub open spec fn id_text_id(head: Seq<u8>, a: u64, t: Seq<char>, b: u64) -> Seq<u8> {
    head + id_bytes(a) + seq![58u8] + encode_utf8(t) + seq![58u8] + id_bytes(b)
}

fn push_two(b: &mut Vec<u8>, x: &str, y: &str)
    ensures
        final(b)@ == two_part(old(b)@, x@, y@),
{
    push_all(b, x.as_bytes());
    b.push(58);
    push_all(b, y.as_bytes());
    proof {
        assert(b@ =~= two_part(old(b)@, x@, y@));
    }
}

fn push_text_id(b: &mut Vec<u8>, t: &str, id: u64)
    ensures
        final(b)@ == text_id(old(b)@, t@, id),
{
    push_all(b, t.as_bytes());
    b.push(58);
    push_be(b, id, 8);
    proof {
        assert(b@ =~= text_id(old(b)@, t@, id));
    }
}

fn push_id_text_id(b: &mut Vec<u8>, x: u64, t: &str, y: u64)
    ensures
        final(b)@ == id_text_id(old(b)@, x, t@, y),
{
    push_be(b, x, 8);
    b.push(58);
    push_all(b, t.as_bytes());
    b.push(58);
    push_be(b, y, 8);
    proof {
        assert(b@ =~= id_text_id(old(b)@, x, t@, y));
    }
}

/// The key of a working-memory value.
pub fn wm_key(agent: &str, k: &str) -> (r: Vec<u8>)
    ensures
        r@ == two_part(wm_head(), agent@, k@),
{
    let mut b: Vec<u8> = vec![109u8, 101u8, 109u8, 58u8, 119u8, 109u8, 58u8];
    assert(b@ =~= wm_head());
    push_two(&mut b, agent, k);
    b
}

/// The key of a working-memory value's expiry.
pub fn wm_exp_key(agent: &str, k: &str) -> (r: Vec<u8>)
    ensures
        r@ == two_part(wmx_head(), agent@, k@),
{
    let mut b: Vec<u8> = vec![109u8, 101u8, 109u8, 58u8, 119u8, 109u8, 120u8, 58u8];
    assert(b@ =~= wmx_head());
    push_two(&mut b, agent, k);
    b
}

/// The key of a long-term memory's text.
pub fn ltm_key(id: u64) -> (r: Vec<u8>)
    ensures
        r@ == ltm_head() + id_bytes(id),
{
    let mut b: Vec<u8> = vec![109u8, 101u8, 109u8, 58u8, 108u8, 116u8, 109u8, 58u8];
    assert(b@ =~= ltm_head());
    push_be(&mut b, id, 8);
    b
}

/// The key of a long-term memory's meta record.
pub fn meta_key(id: u64) -> (r: Vec<u8>)
    ensures
        r@ == meta_head() + id_bytes(id),
{
    let mut b: Vec<u8> = vec![109u8, 101u8, 109u8, 58u8, 109u8, 101u8, 116u8, 97u8, 58u8];
    assert(b@ =~= meta_head());
    push_be(&mut b, id, 8);
    b
}

/// The key of an episode.
pub fn ep_key(agent: &str, seq: u64) -> (r: Vec<u8>)
    ensures
        r@ == text_id(ep_head(), agent@, seq),
{
    let mut b: Vec<u8> = vec![109u8, 101u8, 109u8, 58u8, 101u8, 112u8, 58u8];
    assert(b@ =~= ep_head());
    push_text_id(&mut b, agent, seq);
    b
}

/// The key of a keyword posting.
pub fn kw_key(token: &str, id: u64) -> (r: Vec<u8>)
    ensures
        r@ == text_id(kw_head(), token@, id),
{
    let mut b: Vec<u8> = vec![109u8, 101u8, 109u8, 58u8, 107u8, 119u8, 58u8];
    assert(b@ =~= kw_head());
    push_text_id(&mut b, token, id);
    b
}

/// The key of an edge of the memory graph.
pub fn edge_key(from: u64, rel: &str, to: u64) -> (r: Vec<u8>)
    ensures
        r@ == id_text_id(edge_head(), from, rel@, to),
{
    let mut b: Vec<u8> = vec![109u8, 101u8, 109u8, 58u8, 101u8, 100u8, 103u8, 101u8, 58u8];
    assert(b@ =~= edge_head());
    push_id_text_id(&mut b, from, rel, to);
    b
}

/// The key under which an edge is found from its end.
pub fn redge_key(to: u64, rel: &str, from: u64) -> (r: Vec<u8>)
    ensures
        r@ == id_text_id(redge_head(), to, rel@, from),
{
    let mut b: Vec<u8> = vec![109u8, 101u8, 109u8, 58u8, 114u8, 101u8, 100u8, 103u8, 101u8, 58u8];
    assert(b@ =~= redge_head());
    push_id_text_id(&mut b, to, rel, from);
    b
}

/// The key of a procedure.
pub fn proc_key(agent: &str, name: &str) -> (r: Vec<u8>)
    ensures
        r@ == two_part(proc_head(), agent@, name@),
{
    let mut b: Vec<u8> = vec![109u8, 101u8, 109u8, 58u8, 112u8, 114u8, 111u8, 99u8, 58u8];
    assert(b@ =~= proc_head());
    push_two(&mut b, agent, name);
    b
}

/// Where a memory came from, how much it matters, and when it holds. The salience is
/// the bits of an `f32`.
#[derive(Debug, PartialEq)]
pub struct Meta {
    pub source: String,
    pub created_ts: u64,
    pub salience: u32,
    pub lineage: String,
    pub valid_from: u64,
    pub valid_to: u64,
    pub owner: String,
}

/// What a meta record says.
pub struct MetaView {
    pub source: Seq<char>,
    pub created_ts: u64,
    pub salience: u32,
    pub lineage: Seq<char>,
    pub valid_from: u64,
    pub valid_to: u64,
    pub owner: Seq<char>,
}

impl View for Meta {
    type V = MetaView;

    open spec fn view(&self) -> MetaView {
        MetaView {
            source: self.source@,
            created_ts: self.created_ts,
            salience: self.salience,
            lineage: self.lineage@,
            valid_from: self.valid_from,
            valid_to: self.valid_to,
            owner: self.owner@,
        }
    }
}

impl Clone for Meta {
    fn clone(&self) -> (r: Self)
        ensures
            r@ == self@,
    {
        Meta {
            source: self.source.clone(),
            created_ts: self.created_ts,
            salience: self.salience,
            lineage: self.lineage.clone(),
            valid_from: self.valid_from,
            valid_to: self.valid_to,
            owner: self.owner.clone(),
        }
    }
}

/// A text behind the low four bytes of its length.
pub open spec fn sized_text(t: Seq<char>) -> Seq<u8> {
    codec::le(encode_utf8(t).len(), 4) + encode_utf8(t)
}

/// The stored form of a meta record.
pub open spec fn meta_bytes(m: MetaView) -> Seq<u8> {
    seq![3u8] + sized_text(m.source) + codec::le(m.created_ts as nat, 8) + codec::le(
        m.salience as nat,
        4,
    ) + codec::le(m.valid_from as nat, 8) + codec::le(m.valid_to as nat, 8) + sized_text(m.owner)
        + encode_utf8(m.lineage)
}

fn push_sized(out: &mut Vec<u8>, t: &str)
    ensures
        final(out)@ == old(out)@ + sized_text(t@),
{
    let b = t.as_bytes();
    push_le(out, b.len() as u64, 4);
    push_all(out, b);
    proof {
        assert(out@ =~= old(out)@ + sized_text(t@));
    }
}

/// Encodes a meta record.
pub fn encode_meta(m: &Meta) -> (r: Vec<u8>)
    ensures
        r@ == meta_bytes(m@),
{
    let mut out: Vec<u8> = Vec::new();
    out.push(3);
    push_sized(&mut out, m.source.as_str());
    push_le(&mut out, m.created_ts, 8);
    push_le(&mut out, m.salience as u64, 4);
    push_le(&mut out, m.valid_from, 8);
    push_le(&mut out, m.valid_to, 8);
    push_sized(&mut out, m.owner.as_str());
    push_all(&mut out, m.lineage.as_str().as_bytes());
    proof {
        assert(out@ =~= meta_bytes(m@));
    }
    out
}

/// The `k`-byte number at `p`, least significant byte first, where there is room.
pub open spec fn number_at(buf: Seq<u8>, p: int, k: int) -> Option<nat> {
    if p + k <= buf.len() {
        Some(codec::le_value(buf.subrange(p, p + k)))
    } else {
        None
    }
}

/// The text in `buf[p..q]`, where there is room and it is valid UTF-8.
pub open spec fn text_in(buf: Seq<u8>, p: int, q: int) -> Option<Seq<char>> {
    if p <= q <= buf.len() && valid_utf8(buf.subrange(p, q)) {
        Some(decode_utf8(buf.subrange(p, q)))
    } else {
        None
    }
}

/// A text behind its length at `p`, and the place behind it.
pub open spec fn sized_text_at(buf: Seq<u8>, p: int) -> Option<(Seq<char>, int)> {
    match number_at(buf, p, 4) {
        None => None,
        Some(n) => match text_in(buf, p + 4, p + 4 + n) {
            None => None,
            Some(t) => Some((t, p + 4 + n)),
        },
    }
}

/// The meta record in `buf`, of any of the three versions. The first has no validity
/// interval: it holds from its creation on. Only the third has an owner. `None` for
/// anything that is cut short or not valid text.
pub open spec fn meta_of(buf: Seq<u8>) -> Option<MetaView> {
    if buf.len() == 0 || !(1 <= buf[0] <= 3) {
        None
    } else {
        let ver = buf[0];
        match sized_text_at(buf, 1) {
            None => None,
            Some((source, p)) => {
                let fixed = if ver >= 2 { p + 28 } else { p + 12 };
                if fixed > buf.len() {
                    None
                } else {
                    let created = codec::le_value(buf.subrange(p, p + 8)) as u64;
                    let salience = codec::le_value(buf.subrange(p + 8, p + 12)) as u32;
                    let from = if ver >= 2 {
                        codec::le_value(buf.subrange(p + 12, p + 20)) as u64
                    } else {
                        created
                    };
                    let to = if ver >= 2 {
                        codec::le_value(buf.subrange(p + 20, p + 28)) as u64
                    } else {
                        0
                    };
                    let owner = if ver >= 3 {
                        sized_text_at(buf, fixed)
                    } else {
                        Some((Seq::empty(), fixed))
                    };
                    match owner {
                        None => None,
                        Some((own, q)) => match text_in(buf, q, buf.len() as int) {
                            None => None,
                            Some(lineage) => Some(
                                MetaView {
                                    source,
                                    created_ts: created,
                                    salience,
                                    lineage,
                                    valid_from: from,
                                    valid_to: to,
                                    owner: own,
                                },
                            ),
                        },
                    }
                }
            },
        }
    }
}

/// The texts of a record that was read have lengths that its fields hold.
pub proof fn lemma_meta_fits(buf: Seq<u8>)
    ensures
        meta_of(buf) matches Some(m) ==> encode_utf8(m.source).len() < 0x1_0000_0000 && encode_utf8(
            m.owner,
        ).len() < 0x1_0000_0000,
{
    if let Some(m) = meta_of(buf) {
        lemma_sized_fits(buf, 1);
        let (_, p) = sized_text_at(buf, 1)->0;
        if buf[0] >= 3 {
            lemma_sized_fits(buf, p + 28);
        } else {
            assert(encode_utf8(Seq::<char>::empty()).len() == 0);
        }
    }
}

proof fn lemma_sized_fits(buf: Seq<u8>, p: int)
    requires
        0 <= p,
    ensures
        sized_text_at(buf, p) matches Some((t, _)) ==> encode_utf8(t).len() < 0x1_0000_0000,
{
    if let Some(n) = number_at(buf, p, 4) {
        codec::lemma_limits();
        codec::lemma_le_value_bound(buf.subrange(p, p + 4));
        if let Some(t) = text_in(buf, p + 4, p + 4 + n) {
            decode_utf8_encode_utf8(buf.subrange(p + 4, p + 4 + n));
        }
    }
}

fn read_text(buf: &[u8], p: usize, q: usize) -> (r: Option<String>)
    requires
        p <= q <= buf@.len(),
    ensures
        match r {
            Some(s) => text_in(buf@, p as int, q as int) == Some(s@),
            None => text_in(buf@, p as int, q as int) is None,
        },
{
    utf8_text(copy_range(buf, p, q))
}

fn read_sized(buf: &[u8], p: usize) -> (r: Option<(String, usize)>)
    requires
        p <= buf@.len(),
    ensures
        match r {
            Some(x) => sized_text_at(buf@, p as int) == Some((x.0@, x.1 as int)) && p <= x.1
                <= buf@.len(),
            None => sized_text_at(buf@, p as int) is None,
        },
{
    if buf.len() - p < 4 {
        return None;
    }
    let n: u64 = read_le(buf, p, 4);
    let at: usize = p + 4;
    if n > (buf.len() - at) as u64 {
        return None;
    }
    let end: usize = at + n as usize;
    match read_text(buf, at, end) {
        Some(s) => Some((s, end)),
        None => None,
    }
}

/// Decodes a meta record.
pub fn decode_meta(buf: &[u8]) -> (r: Option<Meta>)
    ensures
        match r {
            Some(m) => meta_of(buf@) == Some(m@),
            None => meta_of(buf@) is None,
        },
{
    proof {
        codec::lemma_limits();
    }
    if buf.len() == 0 {
        return None;
    }
    let ver: u8 = buf[0];
    if ver < 1 || ver > 3 {
        return None;
    }
    let (source, p) = match read_sized(buf, 1) {
        None => {
            return None;
        },
        Some(x) => x,
    };
    let need: usize = if ver >= 2 { 28 } else { 12 };
    if buf.len() - p < need {
        return None;
    }
    let created_ts: u64 = read_le(buf, p, 8);
    let salience: u32 = read_le(buf, p + 8, 4) as u32;
    let mut valid_from: u64 = created_ts;
    let mut valid_to: u64 = 0;
    if ver >= 2 {
        valid_from = read_le(buf, p + 12, 8);
        valid_to = read_le(buf, p + 20, 8);
    }
    let mut owner: String = String::new();
    let mut q: usize = p + need;
    if ver >= 3 {
        match read_sized(buf, q) {
            None => {
                return None;
            },
            Some((o, e)) => {
                owner = o;
                q = e;
            },
        }
    }
    match read_text(buf, q, buf.len()) {
        None => None,
        Some(lineage) => Some(
            Meta { source, created_ts, salience, lineage, valid_from, valid_to, owner },
        ),
    }
}

proof fn lemma_sized_text_reads(buf: Seq<u8>, p: int, t: Seq<char>)
    requires
        0 <= p,
        encode_utf8(t).len() < 0x1_0000_0000,
        p + sized_text(t).len() <= buf.len(),
        buf.subrange(p, p + sized_text(t).len()) == sized_text(t),
    ensures
        sized_text_at(buf, p) == Some((t, p + sized_text(t).len())),
{
    let e = encode_utf8(t);
    let s = sized_text(t);
    let l = buf.subrange(p, p + s.len());
    codec::lemma_limits();
    codec::law_bytes_round_trip(e.len(), 4);
    assert(l.subrange(0, 4) =~= buf.subrange(p, p + 4));
    assert(s.subrange(0, 4) =~= codec::le(e.len(), 4));
    assert(l.subrange(4, s.len() as int) =~= buf.subrange(p + 4, p + 4 + e.len()));
    assert(s.subrange(4, s.len() as int) =~= e);
    encode_utf8_valid_utf8(t);
    encode_utf8_decode_utf8(t);
}

proof fn lemma_number_reads(buf: Seq<u8>, p: int, n: nat, k: nat)
    requires
        0 <= p,
        n < codec::bytes_limit(k),
        p + k <= buf.len(),
        buf.subrange(p, p + k) == codec::le(n, k),
    ensures
        codec::le_value(buf.subrange(p, p + k)) == n,
{
    codec::law_bytes_round_trip(n, k);
}

/// A meta record reads back as it was written, with its owner and its lineage.
pub proof fn law_meta_round_trip(m: MetaView)
    requires
        encode_utf8(m.source).len() < 0x1_0000_0000,
        encode_utf8(m.owner).len() < 0x1_0000_0000,
    ensures
        meta_of(meta_bytes(m)) == Some(m),
{
    let buf = meta_bytes(m);
    let s1 = sized_text(m.source);
    let s2 = sized_text(m.owner);
    let p = 1 + s1.len() as int;
    let q = p + 28;
    let e = q + s2.len();
    codec::lemma_limits();
    codec::lemma_le_len(m.created_ts as nat, 8);
    codec::lemma_le_len(m.salience as nat, 4);
    codec::lemma_le_len(m.valid_from as nat, 8);
    codec::lemma_le_len(m.valid_to as nat, 8);
    assert(buf.subrange(1, p) =~= s1);
    lemma_sized_text_reads(buf, 1, m.source);
    assert(buf.subrange(p, p + 8) =~= codec::le(m.created_ts as nat, 8));
    lemma_number_reads(buf, p, m.created_ts as nat, 8);
    assert(buf.subrange(p + 8, p + 12) =~= codec::le(m.salience as nat, 4));
    lemma_number_reads(buf, p + 8, m.salience as nat, 4);
    assert(buf.subrange(p + 12, p + 20) =~= codec::le(m.valid_from as nat, 8));
    lemma_number_reads(buf, p + 12, m.valid_from as nat, 8);
    assert(buf.subrange(p + 20, p + 28) =~= codec::le(m.valid_to as nat, 8));
    lemma_number_reads(buf, p + 20, m.valid_to as nat, 8);
    assert(buf.subrange(q, e) =~= s2);
    lemma_sized_text_reads(buf, q, m.owner);
    assert(buf.subrange(e, buf.len() as int) =~= encode_utf8(m.lineage));
    encode_utf8_valid_utf8(m.lineage);
    encode_utf8_decode_utf8(m.lineage);
}

/// A record of the version before ownership decodes with no owner, and everything else
/// as it was written.
pub proof fn law_old_meta_has_no_owner(m: MetaView)
    requires
        encode_utf8(m.source).len() < 0x1_0000_0000,
        m.owner.len() == 0,
    ensures
        meta_of(
            seq![2u8] + sized_text(m.source) + codec::le(m.created_ts as nat, 8) + codec::le(
                m.salience as nat,
                4,
            ) + codec::le(m.valid_from as nat, 8) + codec::le(m.valid_to as nat, 8)
                + encode_utf8(m.lineage),
        ) == Some(m),
{
    let buf = seq![2u8] + sized_text(m.source) + codec::le(m.created_ts as nat, 8) + codec::le(
        m.salience as nat,
        4,
    ) + codec::le(m.valid_from as nat, 8) + codec::le(m.valid_to as nat, 8) + encode_utf8(
        m.lineage,
    );
    let s1 = sized_text(m.source);
    let p = 1 + s1.len() as int;
    let q = p + 28;
    codec::lemma_limits();
    codec::lemma_le_len(m.created_ts as nat, 8);
    codec::lemma_le_len(m.salience as nat, 4);
    codec::lemma_le_len(m.valid_from as nat, 8);
    codec::lemma_le_len(m.valid_to as nat, 8);
    assert(buf.subrange(1, p) =~= s1);
    lemma_sized_text_reads(buf, 1, m.source);
    assert(buf.subrange(p, p + 8) =~= codec::le(m.created_ts as nat, 8));
    lemma_number_reads(buf, p, m.created_ts as nat, 8);
    assert(buf.subrange(p + 8, p + 12) =~= codec::le(m.salience as nat, 4));
    lemma_number_reads(buf, p + 8, m.salience as nat, 4);
    assert(buf.subrange(p + 12, p + 20) =~= codec::le(m.valid_from as nat, 8));
    lemma_number_reads(buf, p + 12, m.valid_from as nat, 8);
    assert(buf.subrange(p + 20, p + 28) =~= codec::le(m.valid_to as nat, 8));
    lemma_number_reads(buf, p + 20, m.valid_to as nat, 8);
    assert(buf.subrange(q, buf.len() as int) =~= encode_utf8(m.lineage));
    encode_utf8_valid_utf8(m.lineage);
    encode_utf8_decode_utf8(m.lineage);
    assert(m.owner =~= Seq::<char>::empty());
}

} // verus!
